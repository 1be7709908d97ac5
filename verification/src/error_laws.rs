//! What the messages of errors tell.

use vstd::prelude::*;

use crate::error;
use crate::error::NbErrorView;
use crate::text;
use crate::types;

verus! {

/// A text stands somewhere in another.
pub open spec fn tells(s: Seq<char>, part: Seq<char>) -> bool {
    exists|before: Seq<char>, after: Seq<char>| s == #[trigger] (before + part + after)
}

proof fn lemma_tells_more(s: Seq<char>, t: Seq<char>, part: Seq<char>)
    ensures
        tells(s + part, part),
        tells(s, part) ==> tells(s + t, part),
{
    assert(s + part =~= s + part + Seq::<char>::empty());
    if tells(s, part) {
        let (before, after) = choose|before: Seq<char>, after: Seq<char>|
            s == #[trigger] (before + part + after);
        assert(s + t =~= before + part + (after + t));
    }
}

pub proof fn lemma_tells()
    ensures
        forall|s: Seq<char>, part: Seq<char>| #[trigger] tells(s + part, part),
        forall|s: Seq<char>, t: Seq<char>, part: Seq<char>|
            tells(s, part) ==> #[trigger] tells(s + t, part),
{
    assert forall|s: Seq<char>, part: Seq<char>| #[trigger] tells(s + part, part) by {
        lemma_tells_more(s, s, part);
    }
    assert forall|s: Seq<char>, t: Seq<char>, part: Seq<char>| tells(s, part) implies #[trigger] tells(
        s + t,
        part,
    ) by {
        lemma_tells_more(s, t, part);
    }
}

/// The message of an error tells what the error is about: the command and what it said, the
/// path, the selector, the title, the place, the numbers, and what to do about it.
pub proof fn law_message_tells_its_subject(e: NbErrorView)
    ensures
        ({
            let m = error::message(e);
            match e {
                NbErrorView::CommandFailed { command, stderr, exit_code } => tells(
                    m,
                    text::debug_text(command),
                ) && tells(m, stderr) && (exit_code matches Some(n) ==> tells(
                    m,
                    text::signed_decimal(n as int),
                )),
                NbErrorView::ExecutableNotFound { path } => tells(m, text::debug_text(path)),
                NbErrorView::NotFound { selector } => tells(m, text::debug_text(selector)),
                NbErrorView::Io { path, source } => tells(m, text::debug_path_text(path)) && tells(
                    m,
                    error::io_text(source),
                ),
                NbErrorView::UnsupportedShowTarget { selector, actual_type } => tells(m, selector)
                    && tells(m, actual_type),
                NbErrorView::DuplicateTitleHeading { title, heading } => tells(m, title) && tells(
                    m,
                    heading,
                ),
                NbErrorView::ParseError { kind, location } => tells(
                    m,
                    text::decimal(location.start as nat),
                ) && tells(m, text::decimal(location.end as nat)),
                NbErrorView::InvalidFingerprint { reason } => tells(m, text::debug_text(reason)),
                NbErrorView::JsonParseError { source } => tells(m, text::debug_text(source)),
                NbErrorView::ValidationError { reason, .. } => tells(m, text::debug_text(reason)),
                NbErrorView::UnsupportedDocumentFormat { extension, supported } => tells(
                    m,
                    text::debug_text(extension),
                ),
                NbErrorView::GateTimeout { gate, timeout_ms } => tells(m, gate) && tells(
                    m,
                    text::decimal(timeout_ms as nat),
                ),
                NbErrorView::DirtyBaseline { guidance } => tells(m, guidance),
                NbErrorView::PathCollision { path, plan_index } => tells(m, text::debug_text(path))
                    && (plan_index matches Some(n) ==> tells(m, text::decimal(n as nat))),
                NbErrorView::PathIgnored { path, guidance, plan_index } => tells(
                    m,
                    text::debug_text(path),
                ) && tells(m, guidance) && (plan_index matches Some(n) ==> tells(
                    m,
                    text::decimal(n as nat),
                )),
                NbErrorView::PlanValidation { kind, message, plan_index } => tells(m, kind)
                    && tells(m, message) && (plan_index matches Some(n) ==> tells(
                    m,
                    text::decimal(n as nat),
                )),
                NbErrorView::IndeterminateCommit {
                    pre_revision,
                    post_revision_observed,
                    guidance,
                } => tells(m, pre_revision) && tells(m, guidance) && (post_revision_observed
                    matches Some(r) ==> tells(m, text::debug_text(r))),
                NbErrorView::RecoveryRequired { pre_revision, guidance, .. } => tells(
                    m,
                    pre_revision,
                ) && tells(m, guidance),
                NbErrorView::FingerprintMismatch { target, guidance } => tells(
                    m,
                    text::debug_text(target.value()),
                ) && tells(m, guidance),
                NbErrorView::AnchorMismatch { target, number, guidance } => tells(m, target)
                    && tells(m, text::decimal(number as nat)) && tells(m, guidance),
                NbErrorView::OccurrenceMismatch { expected, actual } => tells(
                    m,
                    text::decimal(expected as nat),
                ) && tells(m, text::decimal(actual as nat)),
                NbErrorView::OverlappingEdits { indices } => true,
                NbErrorView::InvalidLineWindow { offset, limit, total_lines } => tells(
                    m,
                    text::decimal(offset as nat),
                ) && tells(m, text::decimal(limit as nat)) && tells(
                    m,
                    text::decimal(total_lines as nat),
                ),
                NbErrorView::EmptySubstringPattern => m.len() > 0,
                NbErrorView::FragmentedBody { fragment_count, guidance } => tells(
                    m,
                    text::decimal(fragment_count as nat),
                ) && tells(m, guidance),
                NbErrorView::UnsupportedStructure { reason } => tells(m, reason),
                NbErrorView::NonUtf8 { path, kind, .. } => tells(m, text::debug_text(path)) && tells(
                    m,
                    kind,
                ),
                NbErrorView::IndexLockTimeout { path, timeout_ms } => tells(
                    m,
                    text::debug_text(path),
                ) && tells(m, text::decimal(timeout_ms as nat)),
            }
        }),
{
    lemma_tells();
    reveal_strlit("empty substring pattern");
    lemma_inside(e);
}

/// A text that tells of another in its middle does so whatever stands around it.
proof fn lemma_around(a: Seq<char>, s: Seq<char>, b: Seq<char>, part: Seq<char>)
    requires
        tells(s, part),
    ensures
        tells(a + s, part),
        tells(a + s + b, part),
{
    let (before, after) = choose|before: Seq<char>, after: Seq<char>|
        s == #[trigger] (before + part + after);
    assert(a + s =~= (a + before) + part + after);
    assert(a + s + b =~= (a + before) + part + (after + b));
}

proof fn lemma_optional(value: Seq<char>)
    ensures
        tells(text::option_text(Some(value)), value),
{
    lemma_tells_more("Some("@, ")"@, value);
    lemma_tells_more("Some("@ + value, ")"@, value);
}

/// The optional parts of a message, and the target of a mismatch.
proof fn lemma_inside(e: NbErrorView)
    ensures
        ({
            let m = error::message(e);
            match e {
                NbErrorView::CommandFailed { exit_code, .. } => exit_code matches Some(n) ==> tells(
                    m,
                    text::signed_decimal(n as int),
                ),
                NbErrorView::PathCollision { plan_index, .. } => plan_index matches Some(n)
                    ==> tells(m, text::decimal(n as nat)),
                NbErrorView::PathIgnored { plan_index, .. } => plan_index matches Some(n) ==> tells(
                    m,
                    text::decimal(n as nat),
                ),
                NbErrorView::PlanValidation { plan_index, .. } => plan_index matches Some(n)
                    ==> tells(m, text::decimal(n as nat)),
                NbErrorView::IndeterminateCommit { post_revision_observed, .. } =>
                post_revision_observed matches Some(r) ==> tells(m, text::debug_text(r)),
                NbErrorView::FingerprintMismatch { target, .. } => tells(
                    m,
                    text::debug_text(target.value()),
                ),
                _ => true,
            }
        }),
{
    match e {
        NbErrorView::CommandFailed { command, stderr, exit_code } => if let Some(n) = exit_code {
            let x = text::signed_decimal(n as int);
            lemma_optional(x);
            let head = "command "@ + text::debug_text(command) + " failed (exit "@;
            lemma_around(head, error::opt_i32_text(exit_code), "): "@, x);
            lemma_tells_more(head + error::opt_i32_text(exit_code) + "): "@, stderr, x);
        },
        NbErrorView::PathCollision { path, plan_index } => if let Some(n) = plan_index {
            let x = text::decimal(n as nat);
            lemma_optional(x);
            lemma_around(
                "path collision at "@ + text::debug_text(path) + " (plan_index="@,
                error::opt_u32_text(plan_index),
                ")"@,
                x,
            );
        },
        NbErrorView::PathIgnored { path, guidance, plan_index } => if let Some(n) = plan_index {
            let x = text::decimal(n as nat);
            lemma_optional(x);
            let head = "ignored path "@ + text::debug_text(path) + " (plan_index="@;
            lemma_around(head, error::opt_u32_text(plan_index), "): "@, x);
            lemma_tells_more(head + error::opt_u32_text(plan_index) + "): "@, guidance, x);
        },
        NbErrorView::PlanValidation { kind, message, plan_index } => if let Some(n) = plan_index {
            let x = text::decimal(n as nat);
            lemma_optional(x);
            let head = "plan validation ("@ + kind + ") at index "@;
            lemma_around(head, error::opt_u32_text(plan_index), ": "@, x);
            lemma_tells_more(head + error::opt_u32_text(plan_index) + ": "@, message, x);
        },
        NbErrorView::IndeterminateCommit { pre_revision, post_revision_observed, guidance } =>
        if let Some(r) = post_revision_observed {
            let x = text::debug_text(r);
            lemma_optional(x);
            let head = "indeterminate commit (pre="@ + pre_revision + ", post="@;
            lemma_around(head, error::opt_debug_text(post_revision_observed), "): "@, x);
            lemma_tells_more(
                head + error::opt_debug_text(post_revision_observed) + "): "@,
                guidance,
                x,
            );
        },
        NbErrorView::FingerprintMismatch { target, guidance } => {
            let x = text::debug_text(target.value());
            let s = types::target_text(target);
            assert(tells(s, x)) by {
                lemma_tells();
            }
            let head = "fingerprint mismatch for "@;
            lemma_around(head, s, ": "@, x);
            lemma_tells_more(head + s + ": "@, guidance, x);
        },
        _ => {},
    }
}

proof fn lemma_joined(items: Seq<Seq<char>>, sep: Seq<char>, k: int)
    requires
        0 <= k < items.len(),
    ensures
        tells(text::join(items, sep), items[k]),
    decreases items.len(),
{
    let none = Seq::<char>::empty();
    if items.len() == 1 {
        assert(none + items[k] + none =~= items[k]);
    } else {
        let init = items.drop_last();
        let front = text::join(init, sep);
        if k == items.len() - 1 {
            lemma_tells_more(front + sep, none, items[k]);
        } else {
            lemma_joined(init, sep, k);
            assert(init[k] == items[k]);
            lemma_tells_more(front, sep, items[k]);
            lemma_tells_more(front + sep, items.last(), items[k]);
        }
    }
}

/// The message of overlapping edits tells the number of each of them.
pub proof fn law_message_tells_the_edits(indices: Seq<u32>, k: int)
    requires
        0 <= k < indices.len(),
    ensures
        tells(
            error::message(NbErrorView::OverlappingEdits { indices }),
            text::decimal(indices[k] as nat),
        ),
{
    let items = error::decimals(indices);
    lemma_joined(items, ", "@, k);
    lemma_around("["@, text::join(items, ", "@), "]"@, items[k]);
    lemma_around("overlapping edits at indices "@, text::list_text(items), "]"@, items[k]);
}

/// The message of a format that is not supported tells each one that is.
pub proof fn law_message_tells_the_formats(
    extension: Seq<char>,
    supported: Seq<Seq<char>>,
    k: int,
)
    requires
        0 <= k < supported.len(),
    ensures
        tells(
            error::message(NbErrorView::UnsupportedDocumentFormat { extension, supported }),
            text::debug_text(supported[k]),
        ),
{
    let items = error::debug_texts(supported);
    lemma_joined(items, ", "@, k);
    lemma_around("["@, text::join(items, ", "@), "]"@, items[k]);
    lemma_around(
        "unsupported document format: "@ + text::debug_text(extension) + " (supported: "@,
        text::list_text(items),
        ")"@,
        items[k],
    );
}

} // verus!
