//! Structured errors.

use crate::bytes::ByteRange;
use crate::text;
use crate::types;
use crate::types::{NoteTarget, Target};
use vstd::prelude::*;

verus! {

/// Why the structural parser refuses an input.
#[derive(Debug, Clone, Copy, PartialEq, Eq, Structural)]
pub enum ParseErrorKind {
    /// A task or bookmark without a non-blank line.
    MissingTitle,
}

/// The kinds of I/O failure that are told apart.
#[non_exhaustive]
#[derive(Debug, Clone, Copy, PartialEq, Eq, Structural)]
pub enum IoErrorKind {
    NotFound,
    PermissionDenied,
    ConnectionRefused,
    ConnectionReset,
    ConnectionAborted,
    NotConnected,
    AddrInUse,
    AddrNotAvailable,
    BrokenPipe,
    AlreadyExists,
    WouldBlock,
    InvalidInput,
    InvalidData,
    TimedOut,
    WriteZero,
    Interrupted,
    UnexpectedEof,
    OutOfMemory,
    /// Anything else, nested errors of other types among it.
    Other,
}

impl IoErrorKind {
    /// The name of the kind.
    pub open spec fn name(self) -> Seq<char> {
        match self {
            IoErrorKind::NotFound => "NotFound"@,
            IoErrorKind::PermissionDenied => "PermissionDenied"@,
            IoErrorKind::ConnectionRefused => "ConnectionRefused"@,
            IoErrorKind::ConnectionReset => "ConnectionReset"@,
            IoErrorKind::ConnectionAborted => "ConnectionAborted"@,
            IoErrorKind::NotConnected => "NotConnected"@,
            IoErrorKind::AddrInUse => "AddrInUse"@,
            IoErrorKind::AddrNotAvailable => "AddrNotAvailable"@,
            IoErrorKind::BrokenPipe => "BrokenPipe"@,
            IoErrorKind::AlreadyExists => "AlreadyExists"@,
            IoErrorKind::WouldBlock => "WouldBlock"@,
            IoErrorKind::InvalidInput => "InvalidInput"@,
            IoErrorKind::InvalidData => "InvalidData"@,
            IoErrorKind::TimedOut => "TimedOut"@,
            IoErrorKind::WriteZero => "WriteZero"@,
            IoErrorKind::Interrupted => "Interrupted"@,
            IoErrorKind::UnexpectedEof => "UnexpectedEof"@,
            IoErrorKind::OutOfMemory => "OutOfMemory"@,
            IoErrorKind::Other => "Other"@,
        }
    }

    /// The name of the kind.
    pub fn as_str(&self) -> (r: &'static str)
        ensures
            r@ == self.name(),
    {
        match self {
            IoErrorKind::NotFound => "NotFound",
            IoErrorKind::PermissionDenied => "PermissionDenied",
            IoErrorKind::ConnectionRefused => "ConnectionRefused",
            IoErrorKind::ConnectionReset => "ConnectionReset",
            IoErrorKind::ConnectionAborted => "ConnectionAborted",
            IoErrorKind::NotConnected => "NotConnected",
            IoErrorKind::AddrInUse => "AddrInUse",
            IoErrorKind::AddrNotAvailable => "AddrNotAvailable",
            IoErrorKind::BrokenPipe => "BrokenPipe",
            IoErrorKind::AlreadyExists => "AlreadyExists",
            IoErrorKind::WouldBlock => "WouldBlock",
            IoErrorKind::InvalidInput => "InvalidInput",
            IoErrorKind::InvalidData => "InvalidData",
            IoErrorKind::TimedOut => "TimedOut",
            IoErrorKind::WriteZero => "WriteZero",
            IoErrorKind::Interrupted => "Interrupted",
            IoErrorKind::UnexpectedEof => "UnexpectedEof",
            IoErrorKind::OutOfMemory => "OutOfMemory",
            IoErrorKind::Other => "Other",
        }
    }
}

/// A snapshot of an I/O error and of the chain of errors behind it.
#[derive(Debug, PartialEq, Eq)]
pub struct IoError {
    pub kind: IoErrorKind,
    pub message: String,
    pub os_error: Option<i32>,
    pub source: Option<Box<IoError>>,
}

impl Clone for IoError {
    fn clone(&self) -> (r: Self)
        ensures
            r == *self,
        decreases self,
    {
        IoError {
            kind: self.kind,
            message: self.message.clone(),
            os_error: self.os_error,
            source: match &self.source {
                Some(inner) => Some(Box::new((&**inner).clone())),
                None => None,
            },
        }
    }
}

/// What an I/O error snapshot says.
pub open spec fn io_text(e: IoError) -> Seq<char> {
    e.kind.name() + ": "@ + e.message@
}

impl IoError {
    /// What the snapshot says: its kind, then its message.
    pub fn message_text(&self) -> (r: String)
        ensures
            r@ == io_text(*self),
    {
        text::cat3(self.kind.as_str(), ": ", self.message.as_str())
    }
}

/// Errors of this library.
#[allow(inconsistent_fields)]
#[derive(Debug, Clone, PartialEq, Eq)]
pub enum NbError {
    /// An `nb` or `git` command failed.
    CommandFailed { command: String, stderr: String, exit_code: Option<i32> },
    /// The `nb` executable is missing.
    ExecutableNotFound { path: String },
    /// A selector was not found.
    NotFound { selector: String },
    /// An I/O error at a path.
    Io { path: String, source: IoError },
    /// A selector that `nb` does not classify as text.
    UnsupportedShowTarget { selector: String, actual_type: String },
    /// The first heading of new content repeats the title.
    DuplicateTitleHeading { title: String, heading: String },
    /// A structural parse failure.
    ParseError { kind: ParseErrorKind, location: ByteRange },
    /// A malformed fingerprint; the reason is a category.
    InvalidFingerprint { reason: String },
    /// Malformed JSON.
    JsonParseError { source: String },
    /// A semantically illegal input.
    ValidationError { reason: String, location: Option<ByteRange> },
    /// A recognised format that cannot be parsed.
    UnsupportedDocumentFormat { extension: String, supported: Vec<String> },
    /// The queue for a gate was too slow.
    GateTimeout { gate: String, timeout_ms: u64 },
    /// The notebook has uncommitted changes.
    DirtyBaseline { guidance: String },
    /// A planned path is already taken.
    PathCollision { path: String, plan_index: Option<u32> },
    /// A planned path is ignored by Git.
    PathIgnored { path: String, guidance: String, plan_index: Option<u32> },
    /// A plan entry is invalid.
    PlanValidation { kind: String, message: String, plan_index: Option<u32> },
    /// Whether a checkpoint completed is unknown.
    IndeterminateCommit {
        pre_revision: String,
        post_revision_observed: Option<String>,
        guidance: String,
    },
    /// Cleanup after a failed apply could not be verified.
    RecoveryRequired {
        pre_revision: String,
        post_revision_observed: Option<String>,
        status_observed: Option<String>,
        preserved_paths: Option<Vec<String>>,
        guidance: String,
    },
    /// The body is not the one that was read.
    FingerprintMismatch { target: NoteTarget, guidance: String },
    /// A line is not the one that was read.
    AnchorMismatch { target: String, number: u32, guidance: String },
    /// A pattern occurs another number of times.
    OccurrenceMismatch { expected: u32, actual: u32 },
    /// Two line edits of one batch overlap.
    OverlappingEdits { indices: Vec<u32> },
    /// A line window outside the body.
    InvalidLineWindow { offset: u32, limit: u32, total_lines: u32 },
    /// An empty pattern.
    EmptySubstringPattern,
    /// The body is in several fragments.
    FragmentedBody { fragment_count: u32, guidance: String },
    /// A document structure that the operation cannot handle.
    UnsupportedStructure { reason: String },
    /// A text was asked for where the bytes are not UTF-8.
    NonUtf8 { selector: String, path: String, kind: String, mime_hint: Option<String> },
    /// The lock on `.index` files could not be had, or the file would not settle.
    IndexLockTimeout { path: String, timeout_ms: u64 },
}

/// The model of an [`NbError`].
#[allow(inconsistent_fields)]
#[verifier::ext_equal]
pub enum NbErrorView {
    CommandFailed { command: Seq<char>, stderr: Seq<char>, exit_code: Option<i32> },
    ExecutableNotFound { path: Seq<char> },
    NotFound { selector: Seq<char> },
    Io { path: Seq<char>, source: IoError },
    UnsupportedShowTarget { selector: Seq<char>, actual_type: Seq<char> },
    DuplicateTitleHeading { title: Seq<char>, heading: Seq<char> },
    ParseError { kind: ParseErrorKind, location: ByteRange },
    InvalidFingerprint { reason: Seq<char> },
    JsonParseError { source: Seq<char> },
    ValidationError { reason: Seq<char>, location: Option<ByteRange> },
    UnsupportedDocumentFormat { extension: Seq<char>, supported: Seq<Seq<char>> },
    GateTimeout { gate: Seq<char>, timeout_ms: u64 },
    DirtyBaseline { guidance: Seq<char> },
    PathCollision { path: Seq<char>, plan_index: Option<u32> },
    PathIgnored { path: Seq<char>, guidance: Seq<char>, plan_index: Option<u32> },
    PlanValidation { kind: Seq<char>, message: Seq<char>, plan_index: Option<u32> },
    IndeterminateCommit {
        pre_revision: Seq<char>,
        post_revision_observed: Option<Seq<char>>,
        guidance: Seq<char>,
    },
    RecoveryRequired {
        pre_revision: Seq<char>,
        post_revision_observed: Option<Seq<char>>,
        status_observed: Option<Seq<char>>,
        preserved_paths: Option<Seq<Seq<char>>>,
        guidance: Seq<char>,
    },
    FingerprintMismatch { target: Target, guidance: Seq<char> },
    AnchorMismatch { target: Seq<char>, number: u32, guidance: Seq<char> },
    OccurrenceMismatch { expected: u32, actual: u32 },
    OverlappingEdits { indices: Seq<u32> },
    InvalidLineWindow { offset: u32, limit: u32, total_lines: u32 },
    EmptySubstringPattern,
    FragmentedBody { fragment_count: u32, guidance: Seq<char> },
    UnsupportedStructure { reason: Seq<char> },
    NonUtf8 {
        selector: Seq<char>,
        path: Seq<char>,
        kind: Seq<char>,
        mime_hint: Option<Seq<char>>,
    },
    IndexLockTimeout { path: Seq<char>, timeout_ms: u64 },
}

/// The text of an optional string.
pub open spec fn opt_text(s: Option<String>) -> Option<Seq<char>> {
    match s {
        Some(s) => Some(s@),
        None => None,
    }
}

/// The texts of an optional list of strings.
pub open spec fn opt_texts(v: Option<Vec<String>>) -> Option<Seq<Seq<char>>> {
    match v {
        Some(v) => Some(text::texts(v@)),
        None => None,
    }
}

/// The model of what an operation without a value returned.
pub open spec fn viewed(r: Result<(), NbError>) -> Result<(), NbErrorView> {
    match r {
        Ok(()) => Ok(()),
        Err(e) => Err(e@),
    }
}

impl View for NbError {
    type V = NbErrorView;

    open spec fn view(&self) -> NbErrorView {
        match *self {
            NbError::CommandFailed { command, stderr, exit_code } => NbErrorView::CommandFailed {
                command: command@,
                stderr: stderr@,
                exit_code,
            },
            NbError::ExecutableNotFound { path } => NbErrorView::ExecutableNotFound { path: path@ },
            NbError::NotFound { selector } => NbErrorView::NotFound { selector: selector@ },
            NbError::Io { path, source } => NbErrorView::Io { path: path@, source },
            NbError::UnsupportedShowTarget { selector, actual_type } =>
                NbErrorView::UnsupportedShowTarget {
                selector: selector@,
                actual_type: actual_type@,
            },
            NbError::DuplicateTitleHeading { title, heading } =>
                NbErrorView::DuplicateTitleHeading { title: title@, heading: heading@ },
            NbError::ParseError { kind, location } => NbErrorView::ParseError { kind, location },
            NbError::InvalidFingerprint { reason } => NbErrorView::InvalidFingerprint {
                reason: reason@,
            },
            NbError::JsonParseError { source } => NbErrorView::JsonParseError { source: source@ },
            NbError::ValidationError { reason, location } => NbErrorView::ValidationError {
                reason: reason@,
                location,
            },
            NbError::UnsupportedDocumentFormat { extension, supported } =>
                NbErrorView::UnsupportedDocumentFormat {
                extension: extension@,
                supported: text::texts(supported@),
            },
            NbError::GateTimeout { gate, timeout_ms } => NbErrorView::GateTimeout {
                gate: gate@,
                timeout_ms,
            },
            NbError::DirtyBaseline { guidance } => NbErrorView::DirtyBaseline {
                guidance: guidance@,
            },
            NbError::PathCollision { path, plan_index } => NbErrorView::PathCollision {
                path: path@,
                plan_index,
            },
            NbError::PathIgnored { path, guidance, plan_index } => NbErrorView::PathIgnored {
                path: path@,
                guidance: guidance@,
                plan_index,
            },
            NbError::PlanValidation { kind, message, plan_index } => NbErrorView::PlanValidation {
                kind: kind@,
                message: message@,
                plan_index,
            },
            NbError::IndeterminateCommit { pre_revision, post_revision_observed, guidance } =>
                NbErrorView::IndeterminateCommit {
                pre_revision: pre_revision@,
                post_revision_observed: opt_text(post_revision_observed),
                guidance: guidance@,
            },
            NbError::RecoveryRequired {
                pre_revision,
                post_revision_observed,
                status_observed,
                preserved_paths,
                guidance,
            } => NbErrorView::RecoveryRequired {
                pre_revision: pre_revision@,
                post_revision_observed: opt_text(post_revision_observed),
                status_observed: opt_text(status_observed),
                preserved_paths: opt_texts(preserved_paths),
                guidance: guidance@,
            },
            NbError::FingerprintMismatch { target, guidance } => NbErrorView::FingerprintMismatch {
                target: target@,
                guidance: guidance@,
            },
            NbError::AnchorMismatch { target, number, guidance } => NbErrorView::AnchorMismatch {
                target: target@,
                number,
                guidance: guidance@,
            },
            NbError::OccurrenceMismatch { expected, actual } => NbErrorView::OccurrenceMismatch {
                expected,
                actual,
            },
            NbError::OverlappingEdits { indices } => NbErrorView::OverlappingEdits {
                indices: indices@,
            },
            NbError::InvalidLineWindow { offset, limit, total_lines } =>
                NbErrorView::InvalidLineWindow { offset, limit, total_lines },
            NbError::EmptySubstringPattern => NbErrorView::EmptySubstringPattern,
            NbError::FragmentedBody { fragment_count, guidance } => NbErrorView::FragmentedBody {
                fragment_count,
                guidance: guidance@,
            },
            NbError::UnsupportedStructure { reason } => NbErrorView::UnsupportedStructure {
                reason: reason@,
            },
            NbError::NonUtf8 { selector, path, kind, mime_hint } => NbErrorView::NonUtf8 {
                selector: selector@,
                path: path@,
                kind: kind@,
                mime_hint: opt_text(mime_hint),
            },
            NbError::IndexLockTimeout { path, timeout_ms } => NbErrorView::IndexLockTimeout {
                path: path@,
                timeout_ms,
            },
        }
    }
}

/// The `Debug` form of an optional unsigned number.
pub open spec fn opt_u32_text(n: Option<u32>) -> Seq<char> {
    text::option_text(
        match n {
            Some(n) => Some(text::decimal(n as nat)),
            None => None,
        },
    )
}

/// The `Debug` form of an optional signed number.
pub open spec fn opt_i32_text(n: Option<i32>) -> Seq<char> {
    text::option_text(
        match n {
            Some(n) => Some(text::signed_decimal(n as int)),
            None => None,
        },
    )
}

/// The `Debug` form of an optional string.
pub open spec fn opt_debug_text(s: Option<Seq<char>>) -> Seq<char> {
    text::option_text(
        match s {
            Some(s) => Some(text::debug_text(s)),
            None => None,
        },
    )
}

/// The `Debug` forms of a list of strings.
pub open spec fn debug_texts(v: Seq<Seq<char>>) -> Seq<Seq<char>> {
    v.map_values(|s: Seq<char>| text::debug_text(s))
}

/// The decimal forms of a list of numbers.
pub open spec fn decimals(v: Seq<u32>) -> Seq<Seq<char>> {
    v.map_values(|n: u32| text::decimal(n as nat))
}

/// What an error says.
pub open spec fn message(e: NbErrorView) -> Seq<char> {
    match e {
        NbErrorView::CommandFailed { command, stderr, exit_code } => "command "@
            + text::debug_text(command) + " failed (exit "@ + opt_i32_text(exit_code) + "): "@
            + stderr,
        NbErrorView::ExecutableNotFound { path } => "`nb` executable not found at path "@
            + text::debug_text(path),
        NbErrorView::NotFound { selector } => "not found: "@ + text::debug_text(selector),
        NbErrorView::Io { path, source } => "I/O error at "@ + text::debug_path_text(path) + ": "@
            + io_text(source),
        NbErrorView::UnsupportedShowTarget { selector, actual_type } => "selector `"@ + selector
            + "` resolved to non-textual type `"@ + actual_type
            + "`; `nb show` does not display non-textual content"@,
        NbErrorView::DuplicateTitleHeading { title, heading } => "title `"@ + title
            + "` duplicates the first H1 in content (`"@ + heading
            + "`); remove the duplicate heading to avoid double-rendering"@,
        NbErrorView::ParseError { kind: ParseErrorKind::MissingTitle, location } =>
            "parse error: MissingTitle at "@ + text::decimal(location.start as nat) + ".."@
            + text::decimal(location.end as nat),
        NbErrorView::InvalidFingerprint { reason } => "invalid fingerprint: "@ + text::debug_text(
            reason,
        ),
        NbErrorView::JsonParseError { source } => "JSON parse error: "@ + text::debug_text(source),
        NbErrorView::ValidationError { reason, .. } => "validation error: "@ + text::debug_text(
            reason,
        ),
        NbErrorView::UnsupportedDocumentFormat { extension, supported } =>
            "unsupported document format: "@ + text::debug_text(extension) + " (supported: "@
            + text::list_text(debug_texts(supported)) + ")"@,
        NbErrorView::GateTimeout { gate, timeout_ms } => "gate timeout waiting on "@ + gate
            + " after "@ + text::decimal(timeout_ms as nat) + "ms"@,
        NbErrorView::DirtyBaseline { guidance } => "dirty baseline: "@ + guidance,
        NbErrorView::PathCollision { path, plan_index } => "path collision at "@ + text::debug_text(
            path,
        ) + " (plan_index="@ + opt_u32_text(plan_index) + ")"@,
        NbErrorView::PathIgnored { path, guidance, plan_index } => "ignored path "@
            + text::debug_text(path) + " (plan_index="@ + opt_u32_text(plan_index) + "): "@
            + guidance,
        NbErrorView::PlanValidation { kind, message, plan_index } => "plan validation ("@ + kind
            + ") at index "@ + opt_u32_text(plan_index) + ": "@ + message,
        NbErrorView::IndeterminateCommit { pre_revision, post_revision_observed, guidance } =>
            "indeterminate commit (pre="@ + pre_revision + ", post="@ + opt_debug_text(
            post_revision_observed,
        ) + "): "@ + guidance,
        NbErrorView::RecoveryRequired { pre_revision, guidance, .. } =>
            "recovery required (pre_revision="@ + pre_revision + "): "@ + guidance,
        NbErrorView::FingerprintMismatch { target, guidance } => "fingerprint mismatch for "@
            + types::target_text(target) + ": "@ + guidance,
        NbErrorView::AnchorMismatch { target, number, guidance } => "anchor mismatch for "@ + target
            + " line "@ + text::decimal(number as nat) + ": "@ + guidance,
        NbErrorView::OccurrenceMismatch { expected, actual } => "occurrence mismatch: expected="@
            + text::decimal(expected as nat) + " actual="@ + text::decimal(actual as nat),
        NbErrorView::OverlappingEdits { indices } => "overlapping edits at indices "@
            + text::list_text(decimals(indices)),
        NbErrorView::InvalidLineWindow { offset, limit, total_lines } =>
            "invalid line window offset="@ + text::decimal(offset as nat) + " limit="@
            + text::decimal(limit as nat) + " total_lines="@ + text::decimal(total_lines as nat),
        NbErrorView::EmptySubstringPattern => "empty substring pattern"@,
        NbErrorView::FragmentedBody { fragment_count, guidance } => "fragmented body ("@
            + text::decimal(fragment_count as nat) + " fragments): "@ + guidance,
        NbErrorView::UnsupportedStructure { reason } => "unsupported structure: "@ + reason,
        NbErrorView::NonUtf8 { path, kind, .. } => "non-UTF-8 "@ + kind + " content at "@
            + text::debug_text(path),
        NbErrorView::IndexLockTimeout { path, timeout_ms } => "index lock timeout at "@
            + text::debug_text(path) + " after "@ + text::decimal(timeout_ms as nat) + "ms"@,
    }
}

/// The `Debug` form of an optional unsigned number.
fn opt_u32_text_of(n: Option<u32>) -> (r: String)
    ensures
        r@ == opt_u32_text(n),
{
    text::option_text_of(
        match n {
            Some(n) => Some(text::decimal_of(n as u64)),
            None => None,
        },
    )
}

/// The `Debug` form of an optional signed number.
fn opt_i32_text_of(n: Option<i32>) -> (r: String)
    ensures
        r@ == opt_i32_text(n),
{
    text::option_text_of(
        match n {
            Some(n) => Some(text::signed_decimal_of(n)),
            None => None,
        },
    )
}

/// The `Debug` form of an optional string.
fn opt_debug_text_of(s: &Option<String>) -> (r: String)
    ensures
        r@ == opt_debug_text(opt_text(*s)),
{
    text::option_text_of(
        match s {
            Some(s) => Some(text::debug_str(s.as_str())),
            None => None,
        },
    )
}

/// The `Debug` form of a list of strings.
fn debug_list_of(v: &Vec<String>) -> (r: String)
    ensures
        r@ == text::list_text(debug_texts(text::texts(v@))),
{
    let ghost all = debug_texts(text::texts(v@));
    let mut items: Vec<String> = Vec::new();
    let mut i: usize = 0;
    while i < v.len()
        invariant
            i <= v.len(),
            all == debug_texts(text::texts(v@)),
            text::texts(items@) == all.take(i as int),
        decreases v.len() - i,
    {
        let item = text::debug_str(v[i].as_str());
        let ghost before = items@;
        items.push(item);
        proof {
            assert(text::texts(items@) =~= text::texts(before).push(item@));
            assert(all.take(i + 1) =~= all.take(i as int).push(all[i as int]));
        }
        i += 1;
    }
    assert(all.take(all.len() as int) =~= all);
    text::list_text_of(&items)
}

/// The `Debug` form of a list of numbers.
fn number_list_of(v: &Vec<u32>) -> (r: String)
    ensures
        r@ == text::list_text(decimals(v@)),
{
    let ghost all = decimals(v@);
    let mut items: Vec<String> = Vec::new();
    let mut i: usize = 0;
    while i < v.len()
        invariant
            i <= v.len(),
            all == decimals(v@),
            text::texts(items@) == all.take(i as int),
        decreases v.len() - i,
    {
        let item = text::decimal_of(v[i] as u64);
        let ghost before = items@;
        items.push(item);
        proof {
            assert(text::texts(items@) =~= text::texts(before).push(item@));
            assert(all.take(i + 1) =~= all.take(i as int).push(all[i as int]));
        }
        i += 1;
    }
    assert(all.take(all.len() as int) =~= all);
    text::list_text_of(&items)
}

impl NbError {
    /// What the error says, on one line.
    pub fn message_text(&self) -> (r: String)
        ensures
            r@ == message(self@),
    {
        match self {
            NbError::CommandFailed { command, stderr, exit_code } => {
                let mut m = text::cat3(
                    "command ",
                    text::debug_str(command.as_str()).as_str(),
                    " failed (exit ",
                );
                m.append(opt_i32_text_of(*exit_code).as_str());
                m.append("): ");
                m.append(stderr.as_str());
                m
            },
            NbError::ExecutableNotFound { path } => text::cat2(
                "`nb` executable not found at path ",
                text::debug_str(path.as_str()).as_str(),
            ),
            NbError::NotFound { selector } => text::cat2(
                "not found: ",
                text::debug_str(selector.as_str()).as_str(),
            ),
            NbError::Io { path, source } => text::cat4(
                "I/O error at ",
                text::debug_path(path.as_str()).as_str(),
                ": ",
                source.message_text().as_str(),
            ),
            NbError::UnsupportedShowTarget { selector, actual_type } => text::cat5(
                "selector `",
                selector.as_str(),
                "` resolved to non-textual type `",
                actual_type.as_str(),
                "`; `nb show` does not display non-textual content",
            ),
            NbError::DuplicateTitleHeading { title, heading } => text::cat5(
                "title `",
                title.as_str(),
                "` duplicates the first H1 in content (`",
                heading.as_str(),
                "`); remove the duplicate heading to avoid double-rendering",
            ),
            NbError::ParseError { kind: ParseErrorKind::MissingTitle, location } => text::cat4(
                "parse error: MissingTitle at ",
                text::decimal_of(location.start as u64).as_str(),
                "..",
                text::decimal_of(location.end as u64).as_str(),
            ),
            NbError::InvalidFingerprint { reason } => text::cat2(
                "invalid fingerprint: ",
                text::debug_str(reason.as_str()).as_str(),
            ),
            NbError::JsonParseError { source } => text::cat2(
                "JSON parse error: ",
                text::debug_str(source.as_str()).as_str(),
            ),
            NbError::ValidationError { reason, .. } => text::cat2(
                "validation error: ",
                text::debug_str(reason.as_str()).as_str(),
            ),
            NbError::UnsupportedDocumentFormat { extension, supported } => text::cat5(
                "unsupported document format: ",
                text::debug_str(extension.as_str()).as_str(),
                " (supported: ",
                debug_list_of(supported).as_str(),
                ")",
            ),
            NbError::GateTimeout { gate, timeout_ms } => text::cat5(
                "gate timeout waiting on ",
                gate.as_str(),
                " after ",
                text::decimal_of(*timeout_ms).as_str(),
                "ms",
            ),
            NbError::DirtyBaseline { guidance } => text::cat2(
                "dirty baseline: ",
                guidance.as_str(),
            ),
            NbError::PathCollision { path, plan_index } => text::cat5(
                "path collision at ",
                text::debug_str(path.as_str()).as_str(),
                " (plan_index=",
                opt_u32_text_of(*plan_index).as_str(),
                ")",
            ),
            NbError::PathIgnored { path, guidance, plan_index } => {
                let mut m = text::cat5(
                    "ignored path ",
                    text::debug_str(path.as_str()).as_str(),
                    " (plan_index=",
                    opt_u32_text_of(*plan_index).as_str(),
                    "): ",
                );
                m.append(guidance.as_str());
                m
            },
            NbError::PlanValidation { kind, message, plan_index } => {
                let mut m = text::cat5(
                    "plan validation (",
                    kind.as_str(),
                    ") at index ",
                    opt_u32_text_of(*plan_index).as_str(),
                    ": ",
                );
                m.append(message.as_str());
                m
            },
            NbError::IndeterminateCommit { pre_revision, post_revision_observed, guidance } => {
                let mut m = text::cat5(
                    "indeterminate commit (pre=",
                    pre_revision.as_str(),
                    ", post=",
                    opt_debug_text_of(post_revision_observed).as_str(),
                    "): ",
                );
                m.append(guidance.as_str());
                m
            },
            NbError::RecoveryRequired { pre_revision, guidance, .. } => text::cat4(
                "recovery required (pre_revision=",
                pre_revision.as_str(),
                "): ",
                guidance.as_str(),
            ),
            NbError::FingerprintMismatch { target, guidance } => text::cat4(
                "fingerprint mismatch for ",
                target.debug_form().as_str(),
                ": ",
                guidance.as_str(),
            ),
            NbError::AnchorMismatch { target, number, guidance } => {
                let mut m = text::cat5(
                    "anchor mismatch for ",
                    target.as_str(),
                    " line ",
                    text::decimal_of(*number as u64).as_str(),
                    ": ",
                );
                m.append(guidance.as_str());
                m
            },
            NbError::OccurrenceMismatch { expected, actual } => text::cat4(
                "occurrence mismatch: expected=",
                text::decimal_of(*expected as u64).as_str(),
                " actual=",
                text::decimal_of(*actual as u64).as_str(),
            ),
            NbError::OverlappingEdits { indices } => text::cat2(
                "overlapping edits at indices ",
                number_list_of(indices).as_str(),
            ),
            NbError::InvalidLineWindow { offset, limit, total_lines } => {
                let mut m = text::cat5(
                    "invalid line window offset=",
                    text::decimal_of(*offset as u64).as_str(),
                    " limit=",
                    text::decimal_of(*limit as u64).as_str(),
                    " total_lines=",
                );
                m.append(text::decimal_of(*total_lines as u64).as_str());
                m
            },
            NbError::EmptySubstringPattern => "empty substring pattern".to_string(),
            NbError::FragmentedBody { fragment_count, guidance } => text::cat4(
                "fragmented body (",
                text::decimal_of(*fragment_count as u64).as_str(),
                " fragments): ",
                guidance.as_str(),
            ),
            NbError::UnsupportedStructure { reason } => text::cat2(
                "unsupported structure: ",
                reason.as_str(),
            ),
            NbError::NonUtf8 { path, kind, .. } => text::cat4(
                "non-UTF-8 ",
                kind.as_str(),
                " content at ",
                text::debug_str(path.as_str()).as_str(),
            ),
            NbError::IndexLockTimeout { path, timeout_ms } => text::cat5(
                "index lock timeout at ",
                text::debug_str(path.as_str()).as_str(),
                " after ",
                text::decimal_of(*timeout_ms).as_str(),
                "ms",
            ),
        }
    }

    /// A validation error that is not tied to a place in a source.
    pub fn invalid(reason: &str) -> (r: Self)
        ensures
            r@ == (NbErrorView::ValidationError { reason: reason@, location: None }),
    {
        NbError::ValidationError { reason: reason.to_string(), location: None }
    }
}

/// The model of a validation error that is not tied to a place in a source.
pub open spec fn invalid(reason: Seq<char>) -> NbErrorView {
    NbErrorView::ValidationError { reason, location: None }
}

} // verus!
