//! What reading and editing a body by lines gives, stated over its bytes.

use vstd::prelude::*;

use crate::bytes;
use crate::bytes::{Span, CR, LF};
use crate::error::NbErrorView;
use crate::fingerprint;
use crate::lines;
use crate::lines::Change;
use crate::parser::document;
use crate::parser::document::DocumentView;
use crate::types;
use crate::types::{BoundaryAt, LineEdit, LineEol, LinePosition, LineRef};

verus! {

/// The lines of a body end with `eol`: that is its first line feed, with the carriage return
/// before it if there is one. New lines of a body without line feed end with a line feed.
pub open spec fn lines_end_with(body: Seq<u8>, eol: Seq<u8>) -> bool {
    ||| eol == seq![10u8] && forall|i: int| 0 <= i < body.len() ==> #[trigger] body[i] != 10
    ||| exists|i: int| #[trigger]
        first_feed(body, i) && eol == (if i > 0 && body[i - 1] == 13 {
            seq![13u8, 10u8]
        } else {
            seq![10u8]
        })
}

/// The first line feed of a body is byte `i`.
pub open spec fn first_feed(body: Seq<u8>, i: int) -> bool {
    &&& 0 <= i < body.len()
    &&& body[i] == 10
    &&& forall|j: int| 0 <= j < i ==> #[trigger] body[j] != 10
}

/// The bytes `eol` stand in `body` from byte `i` on.
pub open spec fn is_at(body: Seq<u8>, eol: Seq<u8>, i: int) -> bool {
    0 <= i && i + eol.len() <= body.len() && body.subrange(i, i + eol.len()) == eol
}

/// The last line of a body has its ending.
pub open spec fn last_line_ended(body: Seq<u8>, eol: Seq<u8>) -> bool {
    is_at(body, eol, body.len() - eol.len())
}

/// The bytes of new content.
pub open spec fn content_bytes(content: String) -> Seq<u8> {
    vstd::utf8::encode_utf8(content@)
}

/// The ending that a body declares is that of its first line feed.
pub proof fn law_first_feed_declares(body: Seq<u8>, i: int)
    ensures
        first_feed(body, i) ==> lines::declared_eol(body) == (if i > 0 && body[i - 1] == 13 {
            Some(LineEol::CrLf)
        } else {
            Some(LineEol::Lf)
        }),
        (forall|j: int| 0 <= j < body.len() ==> #[trigger] body[j] != 10)
            <==> lines::declared_eol(body) is None,
{
    let p = lines::is_lf();
    let at = bytes::find_from(body, p, 0);
    bytes::lemma_find_from(body, p, 0);
    if first_feed(body, i) {
        bytes::lemma_find_from_is(body, p, 0, i);
    }
    if forall|j: int| 0 <= j < body.len() ==> #[trigger] body[j] != 10 {
        bytes::lemma_find_from_is(body, p, 0, body.len() as int);
    }
    if at >= body.len() {
        assert forall|j: int| 0 <= j < body.len() implies #[trigger] body[j] != 10 by {
            assert(!p(body[j]));
        }
    } else {
        assert(p(body[at]));
    }
}

pub proof fn lemma_ending(body: Seq<u8>, eol: Seq<u8>)
    requires
        lines_end_with(body, eol),
    ensures
        1 <= eol.len() <= 2,
        eol.last() == LF,
        lines::declared_eol(body) matches Some(e) ==> types::eol_bytes(e) == eol,
        lines::declared_eol(body) is None ==> eol == seq![LF] && forall|i: int|
            !is_at(body, eol, i),
{
    law_first_feed_declares(body, 0);
    if forall|i: int| 0 <= i < body.len() ==> #[trigger] body[i] != 10 {
        assert forall|i: int| !is_at(body, seq![LF], i) by {
            if is_at(body, seq![LF], i) {
                assert(body.subrange(i, i + 1)[0] == body[i]);
            }
        }
        if exists|i: int| #[trigger] first_feed(body, i) {
        }
    } else {
        let i = choose|i: int| #[trigger]
            first_feed(body, i) && eol == (if i > 0 && body[i - 1] == 13 {
                seq![13u8, 10u8]
            } else {
                seq![10u8]
            });
        law_first_feed_declares(body, i);
    }
}

/// No occurrence is passed over.
proof fn lemma_first_found(s: Seq<u8>, needle: Seq<u8>, from: int, i: int)
    requires
        0 <= from <= i,
        needle.len() > 0,
        is_at(s, needle, i),
    ensures
        lines::find_bytes(s, needle, from) <= i,
    decreases i - from,
{
    if !lines::stands_at(s, needle, from) {
        lemma_first_found(s, needle, from + 1, i);
    }
}

/// A line: its text holds no ending, and an ending follows it, or nothing at all.
pub open spec fn is_line(body: Seq<u8>, eol: Seq<u8>, text: Span, full: Span) -> bool {
    &&& text.start == full.start
    &&& (is_at(body, eol, text.end) && full.end == text.end + eol.len()) || (full.end == text.end
        && full.end == body.len())
    &&& forall|i: int| text.start <= i && i + eol.len() <= full.end && #[trigger] is_at(body, eol, i) ==> i == text.end
}

proof fn lemma_spans_are_lines(body: Seq<u8>, eol: Seq<u8>, start: int)
    requires
        0 <= start,
        eol.len() > 0,
    ensures
        ({
            let v = lines::line_spans_from(body, eol, start);
            forall|k: int| 0 <= k < v.len() ==> is_line(body, eol, (#[trigger] v[k]).0, v[k].1)
        }),
    decreases body.len() - start,
{
    let v = lines::line_spans_from(body, eol, start);
    if start < body.len() {
        lines::lemma_find_bytes(body, eol, start);
        let at = lines::find_bytes(body, eol, start);
        if at < body.len() {
            let rest = lines::line_spans_from(body, eol, at + eol.len());
            lemma_spans_are_lines(body, eol, at + eol.len());
            assert forall|k: int| 0 <= k < v.len() implies is_line(
                body,
                eol,
                (#[trigger] v[k]).0,
                v[k].1,
            ) by {
                if k > 0 {
                    assert(v[k] == rest[k - 1]);
                } else {
                    assert forall|i: int| start <= i && i + eol.len() <= at + eol.len() && #[trigger] is_at(body, eol, i) implies i == at by {
                        lemma_first_found(body, eol, start, i);
                    }
                }
            }
        } else {
            assert forall|i: int| start <= i && #[trigger] is_at(body, eol, i) implies false by {
                lemma_first_found(body, eol, start, i);
            }
        }
    }
}

/// A body is its lines, one after the other: the first starts it, each next starts where the
/// one before it ends, the last ends it. The text of a line holds no ending, and an ending
/// follows it; only the last line may lack it. Lines are numbered from one, and the anchor of a
/// line authenticates its bytes: with the ending, or with a zero byte where that is missing.
pub proof fn law_body_is_its_lines(body: Seq<u8>, eol: Seq<u8>, k: int)
    requires
        lines_end_with(body, eol),
        0 <= k < lines::models(body).len(),
        k < u32::MAX,
    ensures
        ({
            let v = lines::models(body);
            let line = v[k];
            &&& line.number == k + 1
            &&& is_line(body, eol, line.text, line.full)
            &&& 0 <= line.full.start <= line.text.end <= line.full.end <= body.len()
            &&& line.full.start < line.full.end
            &&& k == 0 ==> line.full.start == 0
            &&& k + 1 < v.len() ==> line.full.end == v[k + 1].full.start && line.text.end
                < line.full.end
            &&& k + 1 == v.len() ==> line.full.end == body.len()
            &&& line.anchor == "b3l1:"@ + fingerprint::blake3_hex(
                if line.text.end < line.full.end {
                    body.subrange(line.full.start, line.full.end)
                } else {
                    body.subrange(line.full.start, line.full.end) + seq![0u8]
                },
            )
        }),
{
    lemma_ending(body, eol);
    lines::law_lines_cover_body(body);
    let s = lines::line_spans(body);
    match lines::declared_eol(body) {
        Some(e) => {
            lemma_spans_are_lines(body, eol, 0);
            assert(is_line(body, eol, s[k].0, s[k].1));
        },
        None => {},
    }
    if k + 1 < s.len() {
        assert(lines::line_adjoins(s, k));
    }
    assert(bytes::slice_of(body, s[k].1) =~= body.subrange(s[k].1.start, s[k].1.end));
    assert(bytes::slice_of(body, s[k].1).push(0u8) =~= body.subrange(s[k].1.start, s[k].1.end)
        + seq![0u8]);
}

/// A body that is not empty has lines, an empty one has none.
pub proof fn law_only_empty_body_has_no_lines(body: Seq<u8>)
    ensures
        lines::models(body).len() == 0 <==> body.len() == 0,
{
    lines::law_lines_cover_body(body);
    let s = lines::line_spans(body);
    if s.len() > 0 {
        assert(s[0].1.start < s[0].1.end);
    }
}

pub proof fn lemma_last_ended(body: Seq<u8>, eol: Seq<u8>)
    requires
        lines_end_with(body, eol),
        body.len() > 0,
    ensures
        lines::ends_with_eol(body) <==> last_line_ended(body, eol),
{
    lemma_ending(body, eol);
    lines::law_lines_cover_body(body);
    let s = lines::line_spans(body);
    let n = s.len() as int;
    if s.len() > 0 {
        assert(s[0].1.start < s[0].1.end);
    }
    match lines::declared_eol(body) {
        Some(e) => {
            lemma_spans_are_lines(body, eol, 0);
            let last = s[n - 1];
            assert(is_line(body, eol, last.0, last.1));
            let i = body.len() - eol.len();
            if last_line_ended(body, eol) && i < last.1.start {
                assert(n > 1);
                assert(lines::line_adjoins(s, n - 2));
                assert(is_line(body, eol, s[n - 2].0, s[n - 2].1));
                assert(is_at(body, eol, s[n - 2].0.end));
                let p = s[n - 2].0.end;
                assert(body.subrange(p, p + eol.len()).last() == body[last.1.start - 1]);
                assert(body.subrange(i, i + eol.len())[last.1.start - 1 - i] == body[last.1.start - 1]);
                assert(eol.len() == 2);
                assert(eol =~= seq![CR, LF]);
                assert(eol[0] == CR);
            }
        },
        None => {
            assert(!is_at(body, eol, body.len() - eol.len()));
        },
    }
}

/// A batch of one edit puts what the edit inserts in the place of what it takes away.
proof fn lemma_single(body: Seq<u8>, edit: LineEdit)
    ensures
        ({
            let eol = lines::new_line_ending(body, seq![edit]);
            lines::edited(body, seq![edit]) == (match lines::change_of(body, eol, edit) {
                Err(e) => Err::<Seq<u8>, NbErrorView>(e),
                Ok(c) => Ok(body.take(c.span.start) + c.insert + body.skip(c.span.end)),
            })
        }),
{
    let batch = seq![edit];
    let eol = lines::new_line_ending(body, batch);
    reveal_with_fuel(lines::changes_of, 2);
    match lines::change_of(body, eol, edit) {
        Err(e) => {},
        Ok(c) => {
            lines::lemma_change_within(body, eol, edit);
            let v = Seq::<Change>::empty().push(c);
            assert(lines::changes_of(body, eol, batch, 1) == Ok::<Seq<Change>, NbErrorView>(v));
            reveal_with_fuel(lines::first_clash, 3);
            assert(lines::first_clash(v, 0, 1) is None);
            assert(v.drop_last() =~= Seq::<Change>::empty());
            reveal_with_fuel(lines::descending, 2);
            assert(lines::descending(v) =~= seq![c]);
            reveal_with_fuel(lines::woven, 2);
            assert(body.subrange(c.span.end, body.len() as int) =~= body.skip(c.span.end));
        },
    }
}

/// New lines end as the lines of the body do.
proof fn lemma_new_ending(body: Seq<u8>, eol: Seq<u8>, edit: LineEdit)
    requires
        lines_end_with(body, eol),
        edit !is Delete,
    ensures
        lines::new_line_ending(body, seq![edit]) == eol,
{
    lemma_ending(body, eol);
    assert(seq![edit][0] == edit);
}

/// A line inserted at the end follows the whole body: the old body stands in front, then the
/// ending of its last line if that lacks one, the content, and the ending of the new line.
pub proof fn law_inserting_at_the_end_appends(body: Seq<u8>, eol: Seq<u8>, content: String)
    requires
        lines_end_with(body, eol),
        body.len() > 0,
    ensures
        ({
            let at = LinePosition::Boundary { at: BoundaryAt::Dollar };
            let made = lines::edited(body, seq![LineEdit::Insert { at, content }]);
            &&& last_line_ended(body, eol) ==> made == Ok::<Seq<u8>, NbErrorView>(
                body + content_bytes(content) + eol,
            )
            &&& !last_line_ended(body, eol) ==> made == Ok::<Seq<u8>, NbErrorView>(
                body + eol + content_bytes(content) + eol,
            )
            &&& made matches Ok(r) && body.is_prefix_of(r)
        }),
{
    let at = LinePosition::Boundary { at: BoundaryAt::Dollar };
    let edit = LineEdit::Insert { at, content };
    lemma_single(body, edit);
    lemma_new_ending(body, eol, edit);
    lemma_last_ended(body, eol);
    let made = lines::edited(body, seq![edit])->Ok_0;
    if last_line_ended(body, eol) {
        assert(made =~= body + content_bytes(content) + eol);
    } else {
        assert(made =~= body + eol + content_bytes(content) + eol);
    }
    assert(body =~= made.take(body.len() as int));
}

/// A line inserted at the start stands in front of the whole body, also of an empty one.
pub proof fn law_inserting_at_the_start_prepends(body: Seq<u8>, eol: Seq<u8>, content: String)
    requires
        lines_end_with(body, eol),
    ensures
        ({
            let at = LinePosition::Boundary { at: BoundaryAt::Caret };
            lines::edited(body, seq![LineEdit::Insert { at, content }]) == Ok::<
                Seq<u8>,
                NbErrorView,
            >(content_bytes(content) + eol + body)
        }),
{
    let at = LinePosition::Boundary { at: BoundaryAt::Caret };
    let edit = LineEdit::Insert { at, content };
    lemma_single(body, edit);
    lemma_new_ending(body, eol, edit);
    let made = lines::edited(body, seq![edit])->Ok_0;
    assert(made =~= content_bytes(content) + eol + body);
}

/// A reference that means line `k` of a body.
pub open spec fn means_line(body: Seq<u8>, line: LineRef, k: int) -> bool {
    &&& 0 <= k < lines::models(body).len()
    &&& line.number == k + 1
    &&& line.anchor@ == lines::models(body)[k].anchor
}

/// A line inserted before a line stands in front of it, behind all lines before it.
pub proof fn law_inserting_before_a_line(
    body: Seq<u8>,
    eol: Seq<u8>,
    line: LineRef,
    k: int,
    content: String,
)
    requires
        lines_end_with(body, eol),
        means_line(body, line, k),
    ensures
        ({
            let p = lines::models(body)[k].full.start;
            let at = LinePosition::Before { line };
            lines::edited(body, seq![LineEdit::Insert { at, content }]) == Ok::<
                Seq<u8>,
                NbErrorView,
            >(body.take(p) + content_bytes(content) + eol + body.skip(p))
        }),
{
    let at = LinePosition::Before { line };
    let edit = LineEdit::Insert { at, content };
    let p = lines::models(body)[k].full.start;
    lines::lemma_models(body, k);
    lemma_single(body, edit);
    lemma_new_ending(body, eol, edit);
    let made = lines::edited(body, seq![edit])->Ok_0;
    assert(made =~= body.take(p) + content_bytes(content) + eol + body.skip(p));
}

/// A line inserted after a line follows it, in front of all lines behind it. Behind a last line
/// without ending, the ending comes first.
pub proof fn law_inserting_after_a_line(
    body: Seq<u8>,
    eol: Seq<u8>,
    line: LineRef,
    k: int,
    content: String,
)
    requires
        lines_end_with(body, eol),
        means_line(body, line, k),
    ensures
        ({
            let model = lines::models(body)[k];
            let p = model.full.end;
            let at = LinePosition::After { line };
            let made = lines::edited(body, seq![LineEdit::Insert { at, content }]);
            &&& model.text.end < model.full.end ==> made == Ok::<Seq<u8>, NbErrorView>(
                body.take(p) + content_bytes(content) + eol + body.skip(p),
            )
            &&& model.text.end == model.full.end ==> made == Ok::<Seq<u8>, NbErrorView>(
                body + eol + content_bytes(content) + eol,
            )
        }),
{
    let at = LinePosition::After { line };
    let edit = LineEdit::Insert { at, content };
    let model = lines::models(body)[k];
    let p = model.full.end;
    lines::lemma_models(body, k);
    lemma_single(body, edit);
    lemma_new_ending(body, eol, edit);
    law_body_is_its_lines(body, eol, k);
    let made = lines::edited(body, seq![edit])->Ok_0;
    let s = lines::line_spans(body);
    assert(k + 1 < s.len() ==> model.text.end < model.full.end);
    if p == body.len() && k + 1 < s.len() {
        lines::lemma_models(body, k + 1);
    }
    assert(p == body.len() <==> k + 1 == s.len());
    if k + 1 == s.len() {
        assert(s.last() == s[k]);
    }
    if model.text.end < model.full.end {
        assert(made =~= body.take(p) + content_bytes(content) + eol + body.skip(p));
    } else {
        assert(made =~= body + eol + content_bytes(content) + eol);
    }
}

/// Deleting lines takes away these lines with their endings, and nothing else.
pub proof fn law_deleting_lines(body: Seq<u8>, start: LineRef, end: LineRef, j: int, k: int)
    requires
        means_line(body, start, j),
        means_line(body, end, k),
        j <= k,
    ensures
        lines::edited(body, seq![LineEdit::Delete { start, end }]) == Ok::<Seq<u8>, NbErrorView>(
            body.take(lines::models(body)[j].full.start) + body.skip(
                lines::models(body)[k].full.end,
            ),
        ),
{
    let edit = LineEdit::Delete { start, end };
    lines::lemma_models(body, j);
    lines::lemma_models(body, k);
    lines::lemma_models_order(body, j, k);
    lemma_single(body, edit);
    let made = lines::edited(body, seq![edit])->Ok_0;
    assert(made =~= body.take(lines::models(body)[j].full.start) + body.skip(
        lines::models(body)[k].full.end,
    ));
}

/// Replacing lines puts the content, as a line, in the place of these lines.
pub proof fn law_replacing_lines(
    body: Seq<u8>,
    eol: Seq<u8>,
    start: LineRef,
    end: LineRef,
    j: int,
    k: int,
    content: String,
)
    requires
        lines_end_with(body, eol),
        means_line(body, start, j),
        means_line(body, end, k),
        j <= k,
    ensures
        lines::edited(body, seq![LineEdit::Replace { start, end, content }]) == Ok::<
            Seq<u8>,
            NbErrorView,
        >(
            body.take(lines::models(body)[j].full.start) + content_bytes(content) + eol
                + body.skip(lines::models(body)[k].full.end),
        ),
{
    let edit = LineEdit::Replace { start, end, content };
    lines::lemma_models(body, j);
    lines::lemma_models(body, k);
    lines::lemma_models_order(body, j, k);
    lemma_single(body, edit);
    lemma_new_ending(body, eol, edit);
    let made = lines::edited(body, seq![edit])->Ok_0;
    assert(made =~= body.take(lines::models(body)[j].full.start) + content_bytes(content) + eol
        + body.skip(lines::models(body)[k].full.end));
}

/// The references of an edit.
pub open spec fn references(edit: LineEdit) -> Seq<LineRef> {
    match edit {
        LineEdit::Insert { at: LinePosition::Before { line }, content } => seq![line],
        LineEdit::Insert { at: LinePosition::After { line }, content } => seq![line],
        LineEdit::Insert { at: LinePosition::Boundary { at }, content } => Seq::empty(),
        LineEdit::Delete { start, end } => seq![start, end],
        LineEdit::Replace { start, end, content } => seq![start, end],
    }
}

/// An edit by itself is refused exactly when one of its references means no line of the body,
/// when it runs backwards, or when it goes behind the last line of a body without lines.
pub proof fn law_edit_needs_its_lines(body: Seq<u8>, edit: LineEdit)
    ensures
        lines::edited(body, seq![edit]) is Ok <==> ({
            &&& forall|i: int|
                0 <= i < references(edit).len() ==> means_line(
                    body,
                    #[trigger] references(edit)[i],
                    references(edit)[i].number - 1,
                )
            &&& edit is Delete || edit is Replace ==> references(edit)[0].number
                <= references(edit)[1].number
            &&& edit matches LineEdit::Insert {
                at: LinePosition::Boundary { at: BoundaryAt::Dollar },
                content,
            } ==> body.len() > 0
        }),
{
    lemma_single(body, edit);
    let m = lines::models(body);
    let refs = references(edit);
    match edit {
        LineEdit::Insert { at, content } => match at {
            LinePosition::Boundary { at: b } => {},
            LinePosition::Before { line } => {
                assert(refs[0] == line);
            },
            LinePosition::After { line } => {
                assert(refs[0] == line);
            },
        },
        LineEdit::Delete { start, end } => {
            assert(refs[0] == start && refs[1] == end);
        },
        LineEdit::Replace { start, end, content } => {
            assert(refs[0] == start && refs[1] == end);
        },
    }
}

/// What an edit of a batch takes away and puts in.
pub open spec fn made_by(body: Seq<u8>, edits: Seq<LineEdit>, k: int) -> Change {
    lines::change_of(body, lines::new_line_ending(body, edits), edits[k])->Ok_0
}

/// The edit `k` of a batch alone.
pub open spec fn alone(body: Seq<u8>, edits: Seq<LineEdit>, k: int) -> Result<
    Seq<u8>,
    NbErrorView,
> {
    lines::edited(body, seq![edits[k]])
}

/// Two changes leave each other alone: one lies before the other, and they are not insertions
/// at one place.
pub open spec fn leave_alone(a: Span, b: Span) -> bool {
    &&& a.end <= b.start || b.end <= a.start
    &&& !(a.start == a.end && a == b)
}

/// The ending of new lines matters only to edits that make them.
proof fn lemma_delete_has_no_ending(body: Seq<u8>, a: Seq<u8>, b: Seq<u8>, edit: LineEdit)
    requires
        edit is Delete || a == b,
    ensures
        lines::change_of(body, a, edit) == lines::change_of(body, b, edit),
{
}

/// An edit resolves in a batch as it does alone.
proof fn lemma_resolves_as_alone(body: Seq<u8>, edits: Seq<LineEdit>, k: int)
    requires
        0 <= k < edits.len(),
    ensures
        ({
            let one = lines::change_of(
                body,
                lines::new_line_ending(body, seq![edits[k]]),
                edits[k],
            );
            lines::change_of(body, lines::new_line_ending(body, edits), edits[k]) == one
        }),
{
    let e = edits[k];
    if e !is Delete {
        assert(seq![e][0] == e);
        assert(lines::introduces_lines(edits));
        assert(lines::introduces_lines(seq![e]));
    }
    lemma_delete_has_no_ending(
        body,
        lines::new_line_ending(body, edits),
        lines::new_line_ending(body, seq![e]),
        e,
    );
}

/// A batch is accepted exactly when each of its edits is accepted alone and no two of them
/// touch the same bytes or insert at the same place.
pub proof fn law_batch_is_accepted(body: Seq<u8>, edits: Seq<LineEdit>)
    ensures
        lines::edited(body, edits) is Ok <==> ({
            &&& forall|k: int| 0 <= k < edits.len() ==> #[trigger] alone(body, edits, k) is Ok
            &&& forall|i: int, j: int|
                0 <= i < j < edits.len() ==> leave_alone(
                    (#[trigger] made_by(body, edits, i)).span,
                    (#[trigger] made_by(body, edits, j)).span,
                )
        }),
{
    let eol = lines::new_line_ending(body, edits);
    let n = edits.len() as int;
    lines::lemma_changes_are(body, eol, edits, n);
    assert forall|k: int| 0 <= k < edits.len() implies (#[trigger] alone(body, edits, k) is Ok
        <==> lines::change_of(body, eol, edits[k]) is Ok) by {
        lemma_single(body, edits[k]);
        lemma_resolves_as_alone(body, edits, k);
    }
    if forall|k: int| 0 <= k < edits.len() ==> #[trigger] alone(body, edits, k) is Ok {
        assert forall|k: int| 0 <= k < n implies lines::change_of(
            body,
            eol,
            #[trigger] edits[k],
        ) is Ok by {
            assert(alone(body, edits, k) is Ok);
        }
        let v = lines::changes_of(body, eol, edits, n)->Ok_0;
        assert forall|k: int| 0 <= k < n implies #[trigger] made_by(body, edits, k) == v[k]
            && bytes::span_within(v[k].span, body.len() as int) by {
            assert(lines::change_of(body, eol, edits[k]) is Ok);
            lines::lemma_change_within(body, eol, edits[k]);
        }
        if lines::first_clash(v, 0, 1) is None {
            lines::lemma_no_clash(v, 0, 1);
            assert forall|i: int, j: int| 0 <= i < j < edits.len() implies leave_alone(
                (#[trigger] made_by(body, edits, i)).span,
                (#[trigger] made_by(body, edits, j)).span,
            ) by {
                assert(!lines::clash(v[i].span, v[j].span));
            }
        }
        if forall|i: int, j: int|
            0 <= i < j < edits.len() ==> leave_alone(
                (#[trigger] made_by(body, edits, i)).span,
                (#[trigger] made_by(body, edits, j)).span,
            ) {
            assert forall|a: int, b: int| 0 <= a < b < v.len() implies !lines::clash(
                (#[trigger] v[a]).span,
                (#[trigger] v[b]).span,
            ) by {
                assert(leave_alone(made_by(body, edits, a).span, made_by(body, edits, b).span));
            }
            lines::lemma_clash_found(v, 0, 1);
        }
    } else {
        let k = choose|k: int|
            0 <= k < edits.len() && !(#[trigger] alone(body, edits, k) is Ok);
        assert(!(lines::change_of(body, eol, edits[k]) is Ok));
    }
}

/// The rest of a body behind all changes stays as it was.
proof fn lemma_woven_tail(body: Seq<u8>, v: Seq<Change>, i: int, near: int, far: int)
    requires
        0 <= i,
        0 <= near <= far <= body.len(),
        forall|k: int|
            0 <= k < v.len() ==> 0 <= (#[trigger] v[k]).span.start <= v[k].span.end <= near,
    ensures
        lines::woven(body, v, i, far) == lines::woven(body, v, i, near) + body.subrange(near, far),
{
    if i < v.len() {
        let head = lines::woven(body, v, i + 1, v[i].span.start) + v[i].insert;
        assert(lines::woven(body, v, i, far) =~= head + body.subrange(v[i].span.end, far));
        assert(body.subrange(v[i].span.end, far) =~= body.subrange(v[i].span.end, near)
            + body.subrange(near, far));
        assert(head + body.subrange(v[i].span.end, far) =~= head + body.subrange(
            v[i].span.end,
            near,
        ) + body.subrange(near, far));
    } else {
        assert(body.take(far) =~= body.take(near) + body.subrange(near, far));
    }
}

proof fn lemma_woven_shift(body: Seq<u8>, c: Change, d: Seq<Change>, i: int, end: int)
    requires
        0 <= i,
    ensures
        lines::woven(body, seq![c] + d, i + 1, end) == lines::woven(body, d, i, end),
    decreases d.len() - i,
{
    let w = seq![c] + d;
    if i < d.len() {
        assert(w[i + 1] == d[i]);
        lemma_woven_shift(body, c, d, i + 1, d[i].span.start);
    }
}

/// What the edits of a batch do, they do also without the last of them.
proof fn lemma_without_last(body: Seq<u8>, others: Seq<LineEdit>, last: LineEdit)
    requires
        lines::edited(body, others.push(last)) is Ok,
    ensures
        ({
            let edits = others.push(last);
            let v = lines::changes_of(
                body,
                lines::new_line_ending(body, edits),
                edits,
                edits.len() as int,
            );
            let w = lines::changes_of(
                body,
                lines::new_line_ending(body, others),
                others,
                others.len() as int,
            );
            &&& v is Ok
            &&& v->Ok_0.len() == edits.len()
            &&& w == Ok::<Seq<Change>, NbErrorView>(v->Ok_0.drop_last())
            &&& forall|k: int|
                0 <= k < edits.len() ==> #[trigger] made_by(body, edits, k) == v->Ok_0[k]
            &&& forall|k: int|
                0 <= k < edits.len() ==> bytes::span_within(
                    (#[trigger] v->Ok_0[k]).span,
                    body.len() as int,
                )
            &&& lines::edited(body, seq![last]) == Ok::<Seq<u8>, NbErrorView>(
                body.take(v->Ok_0.last().span.start) + v->Ok_0.last().insert + body.skip(
                    v->Ok_0.last().span.end,
                ),
            )
        }),
{
    let edits = others.push(last);
    let m = others.len() as int;
    let n = edits.len() as int;
    let eol = lines::new_line_ending(body, edits);
    let eol2 = lines::new_line_ending(body, others);
    lines::lemma_changes_are(body, eol, edits, n);
    let v = lines::changes_of(body, eol, edits, n)->Ok_0;
    assert forall|k: int| 0 <= k < n implies #[trigger] made_by(body, edits, k) == v[k] by {
        assert(lines::change_of(body, eol, edits[k]) is Ok);
    }
    assert forall|k: int| 0 <= k < edits.len() implies bytes::span_within(
        (#[trigger] v[k]).span,
        body.len() as int,
    ) by {
        assert(lines::change_of(body, eol, edits[k]) is Ok);
        lines::lemma_change_within(body, eol, edits[k]);
    }
    assert forall|k: int| 0 <= k < m implies lines::change_of(
        body,
        eol2,
        #[trigger] others[k],
    ) == Ok::<Change, NbErrorView>(v[k]) by {
        assert(edits[k] == others[k]);
        assert(lines::change_of(body, eol, edits[k]) == Ok::<Change, NbErrorView>(v[k]));
        lemma_resolves_as_alone(body, edits, k);
        lemma_resolves_as_alone(body, others, k);
    }
    lines::lemma_changes_are(body, eol2, others, m);
    let w = lines::changes_of(body, eol2, others, m)->Ok_0;
    assert forall|k: int| 0 <= k < m implies w[k] == v[k] by {
        assert(lines::change_of(body, eol2, others[k]) == Ok::<Change, NbErrorView>(v[k]));
    }
    assert(w =~= v.drop_last());
    assert(edits[m] == last);
    assert(lines::change_of(body, eol, edits[m]) == Ok::<Change, NbErrorView>(v[m]));
    lemma_resolves_as_alone(body, edits, m);
    lemma_single(body, last);
}

/// A change behind all others is the first to be made.
proof fn lemma_hindmost(v: Seq<Change>)
    requires
        v.len() > 0,
        lines::first_clash(v, 0, 1) is None,
        forall|k: int|
            0 <= k < v.len() ==> 0 <= (#[trigger] v[k]).span.start <= v[k].span.end,
        forall|k: int|
            0 <= k < v.len() - 1 ==> (#[trigger] v[k]).span.end <= v.last().span.start,
    ensures
        lines::first_clash(v.drop_last(), 0, 1) is None,
        lines::descending(v) == seq![v.last()] + lines::descending(v.drop_last()),
        forall|k: int|
            0 <= k < lines::descending(v.drop_last()).len() ==> 0 <= (#[trigger] lines::descending(
                v.drop_last(),
            )[k]).span.start <= lines::descending(v.drop_last())[k].span.end
                <= v.last().span.start,
{
    let w = v.drop_last();
    let c = v.last();
    let m = w.len() as int;
    lines::lemma_no_clash(v, 0, 1);
    assert forall|a: int, b: int| 0 <= a < b < v.len() implies !lines::clash(
        (#[trigger] v[a]).span,
        (#[trigger] v[b]).span,
    ) by {}
    assert forall|a: int, b: int| 0 <= a < b < w.len() implies !lines::clash(
        (#[trigger] w[a]).span,
        (#[trigger] w[b]).span,
    ) by {
        assert(w[a] == v[a] && w[b] == v[b]);
    }
    lines::lemma_clash_found(w, 0, 1);
    let d = lines::descending(w);
    assert forall|k: int| 0 <= k < d.len() implies 0 <= (#[trigger] d[k]).span.start
        <= d[k].span.end <= c.span.start && !lines::ahead(d[k].span, c.span) by {
        assert(d.contains(d[k]));
        lines::lemma_descending_members(w, d[k]);
        let q = choose|q: int| 0 <= q < w.len() && w[q] == d[k];
        assert(v[q] == d[k]);
        assert(!lines::clash(v[q].span, v[m].span));
    }
    if d.len() > 0 {
        assert(!lines::ahead(d[0].span, c.span));
    }
}

/// The edits of a batch are made side by side. Where one edit lies behind all others, the
/// batch gives what the others give in front of that edit, and what that edit alone gives from
/// there on.
pub proof fn law_batch_is_made_side_by_side(
    body: Seq<u8>,
    others: Seq<LineEdit>,
    last: LineEdit,
)
    requires
        lines::edited(body, others.push(last)) is Ok,
        forall|k: int|
            0 <= k < others.len() ==> (#[trigger] made_by(body, others.push(last), k)).span.end
                <= made_by(body, others.push(last), others.len() as int).span.start,
    ensures
        ({
            let p = made_by(body, others.push(last), others.len() as int).span.start;
            let front = lines::edited(body, others);
            let one = lines::edited(body, seq![last]);
            &&& front is Ok
            &&& one is Ok
            &&& lines::edited(body, others.push(last)) == Ok::<Seq<u8>, NbErrorView>(
                front->Ok_0.take(front->Ok_0.len() - (body.len() - p)) + one->Ok_0.skip(p),
            )
            &&& front->Ok_0.skip(front->Ok_0.len() - (body.len() - p)) == body.skip(p)
            &&& one->Ok_0.take(p) == body.take(p)
        }),
{
    let edits = others.push(last);
    let m = others.len() as int;
    lemma_without_last(body, others, last);
    let v = lines::changes_of(
        body,
        lines::new_line_ending(body, edits),
        edits,
        edits.len() as int,
    )->Ok_0;
    let w = v.drop_last();
    let c = v.last();
    let p = c.span.start;
    assert(made_by(body, edits, m) == c);
    assert forall|k: int| 0 <= k < v.len() - 1 implies (#[trigger] v[k]).span.end <= p by {
        assert(made_by(body, edits, k) == v[k]);
    }
    lemma_hindmost(v);
    let d = lines::descending(w);
    let full = body.len() as int;
    lemma_woven_shift(body, c, d, 0, p);
    assert((seq![c] + d)[0] == c);
    let front = lines::woven(body, d, 0, full);
    let near = lines::woven(body, d, 0, p);
    lemma_woven_tail(body, d, 0, p, full);
    let made = lines::woven(body, seq![c] + d, 0, full);
    assert(made == near + c.insert + body.subrange(c.span.end, full));
    assert(front.take(front.len() - (full - p)) =~= near);
    let one = lines::edited(body, seq![last])->Ok_0;
    assert(one.skip(p) =~= c.insert + body.skip(c.span.end));
    assert(one.take(p) =~= body.take(p));
    assert(body.skip(c.span.end) =~= body.subrange(c.span.end, full));
    assert(made =~= near + one.skip(p));
    assert(front.skip(front.len() - (full - p)) =~= body.skip(p));
}

/// Two edits that touch the same bytes, or insert at the same place, are named in the refusal
/// of their batch.
pub proof fn law_overlap_is_named(body: Seq<u8>, edits: Seq<LineEdit>)
    requires
        forall|k: int| 0 <= k < edits.len() ==> #[trigger] alone(body, edits, k) is Ok,
        lines::edited(body, edits) is Err,
        edits.len() <= u32::MAX,
    ensures
        lines::edited(body, edits) matches Err(NbErrorView::OverlappingEdits { indices })
            && indices.len() == 2 && indices[0] < indices[1] < edits.len() && !leave_alone(
            made_by(body, edits, indices[0] as int).span,
            made_by(body, edits, indices[1] as int).span,
        ),
{
    let eol = lines::new_line_ending(body, edits);
    let n = edits.len() as int;
    lines::lemma_changes_are(body, eol, edits, n);
    assert forall|k: int| 0 <= k < n implies lines::change_of(
        body,
        eol,
        #[trigger] edits[k],
    ) is Ok by {
        assert(alone(body, edits, k) is Ok);
        lemma_single(body, edits[k]);
        lemma_resolves_as_alone(body, edits, k);
    }
    let v = lines::changes_of(body, eol, edits, n)->Ok_0;
    lemma_first_clash(v, 0, 1);
    let (i, j) = lines::first_clash(v, 0, 1)->Some_0;
    assert(lines::change_of(body, eol, edits[i]) is Ok);
    assert(lines::change_of(body, eol, edits[j]) is Ok);
    lines::lemma_change_within(body, eol, edits[i]);
    lines::lemma_change_within(body, eol, edits[j]);
    assert(made_by(body, edits, i) == v[i] && made_by(body, edits, j) == v[j]);
}

proof fn lemma_first_clash(v: Seq<Change>, i: int, j: int)
    requires
        0 <= i < j,
    ensures
        lines::first_clash(v, i, j) matches Some((a, b)) ==> i <= a < b < v.len()
            && lines::clash(v[a].span, v[b].span),
    decreases v.len() - i, v.len() - j,
{
    if i < v.len() {
        if j >= v.len() {
            lemma_first_clash(v, i + 1, i + 2);
        } else if !lines::clash(v[i].span, v[j].span) {
            lemma_first_clash(v, i, j + 1);
        }
    }
}

/// A reference to a line that is not there, or whose bytes are others by now, is refused by
/// its number, and with it the batch.
pub proof fn law_stale_reference_is_refused(body: Seq<u8>, edits: Seq<LineEdit>, k: int, i: int)
    requires
        0 <= k < edits.len(),
        0 <= i < references(edits[k]).len(),
        !means_line(body, references(edits[k])[i], references(edits[k])[i].number - 1),
    ensures
        lines::edited(body, edits) is Err,
        k == 0 && i == 0 ==> (lines::edited(body, edits) matches Err(
            NbErrorView::AnchorMismatch { target, number, guidance },
        ) && number == references(edits[k])[i].number),
{
    law_edit_needs_its_lines(body, edits[k]);
    law_batch_is_accepted(body, edits);
    if lines::edited(body, edits) is Ok {
        assert(alone(body, edits, k) is Ok);
    }
    if k == 0 && i == 0 {
        let eol = lines::new_line_ending(body, edits);
        let e = edits[0];
        let line = references(e)[0];
        let m = lines::models(body);
        assert(lines::referenced(m, line.number, line.anchor@) is Err);
        match e {
            LineEdit::Insert { at, content } => {},
            LineEdit::Delete { start, end } => {},
            LineEdit::Replace { start, end, content } => {},
        }
        assert(lines::change_of(body, eol, e) is Err);
        lemma_first_refused(body, eol, edits, edits.len() as int);
    }
}

proof fn lemma_first_refused(body: Seq<u8>, eol: Seq<u8>, edits: Seq<LineEdit>, n: int)
    requires
        n >= 1,
        lines::change_of(body, eol, edits[0]) is Err,
    ensures
        lines::changes_of(body, eol, edits, n) == Err::<Seq<Change>, NbErrorView>(
            lines::change_of(body, eol, edits[0])->Err_0,
        ),
    decreases n,
{
    reveal_with_fuel(lines::changes_of, 2);
    if n > 1 {
        lemma_first_refused(body, eol, edits, n - 1);
    }
}

/// The body of a document is worked on when it is in one piece or there is none, and then it is
/// the bytes of that piece; one in several pieces is refused, and their number is told.
pub proof fn law_body_in_one_piece(doc: DocumentView)
    requires
        doc.partition.bodies.len() <= u32::MAX,
        forall|k: int|
            0 <= k < doc.partition.bodies.len() ==> 0 <= (
            #[trigger] doc.partition.bodies[k]).start <= doc.partition.bodies[k].end
                <= doc.source.len(),
    ensures
        doc.partition.bodies.len() == 0 ==> lines::contiguous_body(doc) == Ok::<
            Seq<u8>,
            NbErrorView,
        >(Seq::empty()),
        doc.partition.bodies.len() == 1 ==> lines::contiguous_body(doc) == Ok::<
            Seq<u8>,
            NbErrorView,
        >(doc.source.subrange(doc.partition.bodies[0].start, doc.partition.bodies[0].end)),
        doc.partition.bodies.len() >= 2 ==> (lines::contiguous_body(doc) matches Err(
            NbErrorView::FragmentedBody { fragment_count, guidance },
        ) && fragment_count == doc.partition.bodies.len()),
{
    reveal_with_fuel(document::concat_ranges, 2);
    if doc.partition.bodies.len() == 1 {
        let x = doc.partition.bodies[0];
        assert(doc.partition.bodies.last() == x);
        assert(doc.body() =~= doc.source.subrange(x.start, x.end));
    }
}

/// A body in several pieces is the bytes of its pieces, one behind the other.
pub proof fn law_body_is_its_pieces(source: Seq<u8>, pieces: Seq<Span>, last: Span)
    requires
        0 <= last.start <= last.end <= source.len(),
    ensures
        document::concat_ranges(source, Seq::empty()) == Seq::<u8>::empty(),
        document::concat_ranges(source, pieces.push(last)) == document::concat_ranges(
            source,
            pieces,
        ) + source.subrange(last.start, last.end),
{
    assert(pieces.push(last).drop_last() =~= pieces);
    assert(bytes::slice_of(source, last) =~= source.subrange(last.start, last.end));
}

} // verus!
