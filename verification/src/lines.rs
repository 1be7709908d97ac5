//! Body lines: enumeration, anchors, searches and edits of a contiguous body.
//!
//! A body declares one line ending: the first `\n` or `\r\n` in it. A bare `\r` is content.

use crate::bytes;
use crate::bytes::{ByteRange, Span, CR, LF};
use crate::error;
use crate::error::{NbError, NbErrorView};
use crate::parser::document::{DocumentView, NoteDocument};
use crate::text;
use crate::types;
use crate::types::{
    BoundaryAt, LineAnchor, LineEdit, LineEol, LinePosition, LineRef, NoteLine, NoteLineHit,
    Occurrence,
};
use vstd::prelude::*;

verus! {

/// A line of a body.
#[derive(Debug, Clone)]
pub struct BodyLine {
    pub number: u32,
    /// The line without its ending.
    pub text_range: ByteRange,
    /// The line with its ending.
    pub full_range: ByteRange,
    pub anchor: LineAnchor,
}

/// The model of a [`BodyLine`].
pub struct LineModel {
    pub number: u32,
    pub text: Span,
    pub full: Span,
    pub anchor: Seq<char>,
}

impl View for BodyLine {
    type V = LineModel;

    open spec fn view(&self) -> LineModel {
        LineModel {
            number: self.number,
            text: self.text_range@,
            full: self.full_range@,
            anchor: self.anchor@,
        }
    }
}

/// The models of a vector of lines.
pub open spec fn line_models(v: Seq<BodyLine>) -> Seq<LineModel> {
    v.map_values(|l: BodyLine| l@)
}

/// The test for a line feed.
pub open spec fn is_lf() -> spec_fn(u8) -> bool {
    |b: u8| b == LF
}

/// The line ending that a body declares: that of its first line feed.
pub open spec fn declared_eol(body: Seq<u8>) -> Option<LineEol> {
    let at = bytes::find_from(body, is_lf(), 0);
    if at >= body.len() {
        None
    } else if at > 0 && body[at - 1] == CR {
        Some(LineEol::CrLf)
    } else {
        Some(LineEol::Lf)
    }
}

/// The line ending that a body declares.
pub fn detect_eol(body: &[u8]) -> (r: Option<LineEol>)
    ensures
        r == declared_eol(body@),
{
    let mut i: usize = 0;
    while i < body.len() && body[i] != LF
        invariant
            i <= body.len(),
            forall|k: int| 0 <= k < i ==> !is_lf()(#[trigger] body@[k]),
        decreases body.len() - i,
    {
        i += 1;
    }
    proof {
        bytes::lemma_find_from_is(body@, is_lf(), 0, i as int);
    }
    if i >= body.len() {
        None
    } else if i > 0 && body[i - 1] == CR {
        Some(LineEol::CrLf)
    } else {
        Some(LineEol::Lf)
    }
}

/// Whether `needle` stands at byte `i`.
pub open spec fn stands_at(s: Seq<u8>, needle: Seq<u8>, i: int) -> bool {
    0 <= i && i + needle.len() <= s.len() && s.subrange(i, i + needle.len()) == needle
}

/// The first place at or after `from` where `needle` stands, or the length.
pub open spec fn find_bytes(s: Seq<u8>, needle: Seq<u8>, from: int) -> int
    decreases s.len() - from,
{
    if from < 0 || from >= s.len() {
        s.len() as int
    } else if stands_at(s, needle, from) {
        from
    } else {
        find_bytes(s, needle, from + 1)
    }
}

/// `find_bytes` lands on an occurrence or on the length.
pub proof fn lemma_find_bytes(s: Seq<u8>, needle: Seq<u8>, from: int)
    requires
        0 <= from <= s.len(),
    ensures
        from <= find_bytes(s, needle, from) <= s.len(),
        find_bytes(s, needle, from) < s.len() ==> stands_at(s, needle, find_bytes(s, needle, from)),
    decreases s.len() - from,
{
    if from < s.len() && !stands_at(s, needle, from) {
        lemma_find_bytes(s, needle, from + 1);
    }
}

/// The text and full spans of the lines from `start` on, when `sep` ends lines.
pub open spec fn line_spans_from(body: Seq<u8>, sep: Seq<u8>, start: int) -> Seq<(Span, Span)>
    decreases body.len() - start,
{
    if start < 0 || start >= body.len() || sep.len() == 0 {
        Seq::empty()
    } else {
        let at = find_bytes(body, sep, start);
        if at < body.len() {
            proof {
                lemma_find_bytes(body, sep, start);
            }
            seq![
                (Span { start, end: at }, Span { start, end: at + sep.len() }),
            ] + line_spans_from(body, sep, at + sep.len())
        } else {
            let tail = Span { start, end: body.len() as int };
            seq![(tail, tail)]
        }
    }
}

/// The text and full spans of the lines of a body.
pub open spec fn line_spans(body: Seq<u8>) -> Seq<(Span, Span)> {
    match declared_eol(body) {
        Some(e) => line_spans_from(body, types::eol_bytes(e), 0),
        None => if body.len() == 0 {
            Seq::empty()
        } else {
            let all = Span { start: 0, end: body.len() as int };
            seq![(all, all)]
        },
    }
}

/// The bytes that a line's anchor authenticates: with its ending, or with a zero byte in
/// place of a missing one.
pub open spec fn anchored_bytes(body: Seq<u8>, text: Span, full: Span) -> Seq<u8> {
    if text.end < full.end {
        bytes::slice_of(body, full)
    } else {
        bytes::slice_of(body, full).push(0u8)
    }
}

/// The line with the given position among the lines of a body.
pub open spec fn line_model(body: Seq<u8>, v: Seq<(Span, Span)>, k: int) -> LineModel {
    LineModel {
        number: (k + 1) as u32,
        text: v[k].0,
        full: v[k].1,
        anchor: types::anchor_of(anchored_bytes(body, v[k].0, v[k].1)),
    }
}

/// The lines of a body.
pub open spec fn models(body: Seq<u8>) -> Seq<LineModel> {
    Seq::new(line_spans(body).len(), |k: int| line_model(body, line_spans(body), k))
}

/// Whether the last line of a body has its ending.
pub open spec fn ends_with_eol(body: Seq<u8>) -> bool {
    line_spans(body).len() > 0 && line_spans(body).last().0.end < line_spans(body).last().1.end
}

/// Consecutive lines that cover `[from, to)`; all but the last have their ending.
pub open spec fn lines_cover(v: Seq<(Span, Span)>, from: int, to: int) -> bool {
    &&& forall|k: int|
        0 <= k < v.len() ==> from <= (#[trigger] v[k]).1.start && v[k].0.start == v[k].1.start
            && v[k].0.start <= v[k].0.end <= v[k].1.end && v[k].1.start < v[k].1.end <= to
    &&& forall|j: int, k: int|
        0 <= j < k < v.len() ==> (#[trigger] v[j]).1.end <= (#[trigger] v[k]).1.start
    &&& v.len() == 0 ==> from == to
    &&& v.len() > 0 ==> v[0].1.start == from && v.last().1.end == to
    &&& forall|k: int| 0 <= k < v.len() - 1 ==> #[trigger] line_adjoins(v, k)
}

/// Line `k` is terminated and ends where line `k + 1` starts.
pub open spec fn line_adjoins(v: Seq<(Span, Span)>, k: int) -> bool {
    v[k].1.end == v[k + 1].1.start && v[k].0.end < v[k].1.end
}

proof fn lemma_line_spans_from(body: Seq<u8>, sep: Seq<u8>, start: int)
    requires
        0 <= start <= body.len(),
        sep.len() > 0,
    ensures
        lines_cover(line_spans_from(body, sep, start), start, body.len() as int),
    decreases body.len() - start,
{
    if start < body.len() {
        lemma_find_bytes(body, sep, start);
        let at = find_bytes(body, sep, start);
        if at < body.len() {
            lemma_line_spans_from(body, sep, at + sep.len());
            let rest = line_spans_from(body, sep, at + sep.len());
            let v = line_spans_from(body, sep, start);
            let first = (Span { start, end: at }, Span { start, end: at + sep.len() });
            assert(v == seq![first] + rest);
            assert forall|k: int| 0 <= k < v.len() implies start <= (#[trigger] v[k]).1.start
                && v[k].0.start == v[k].1.start && v[k].0.start <= v[k].0.end <= v[k].1.end
                && v[k].1.start < v[k].1.end <= body.len() by {
                if k > 0 {
                    assert(v[k] == rest[k - 1]);
                }
            }
            assert forall|j: int, k: int| 0 <= j < k < v.len() implies (#[trigger] v[j]).1.end <= (
            #[trigger] v[k]).1.start by {
                assert(v[k] == rest[k - 1]);
                if j > 0 {
                    assert(v[j] == rest[j - 1]);
                }
            }
            assert forall|k: int| 0 <= k < v.len() - 1 implies #[trigger] line_adjoins(v, k) by {
                assert(v[k + 1] == rest[k]);
                if k > 0 {
                    assert(line_adjoins(rest, k - 1));
                    assert(v[k] == rest[k - 1]);
                }
            }
        }
    }
}

/// The lines of a body cover it without gap or overlap, and only the last may lack its
/// ending.
pub proof fn law_lines_cover_body(body: Seq<u8>)
    ensures
        lines_cover(line_spans(body), 0, body.len() as int),
{
    if let Some(e) = declared_eol(body) {
        lemma_line_spans_from(body, types::eol_bytes(e), 0);
    }
}

/// The line ending of a body, whether its last line has it, and its lines.
#[verifier::rlimit(60)]
#[verifier::spinoff_prover]
pub fn document_lines(body: &[u8]) -> (r: (Option<LineEol>, bool, Vec<BodyLine>))
    ensures
        r.0 == declared_eol(body@),
        r.1 == ends_with_eol(body@),
        line_models(r.2@) == models(body@),
{
    let ghost all = line_spans(body@);
    proof {
        law_lines_cover_body(body@);
    }
    let mut lines: Vec<BodyLine> = Vec::new();
    let eol = match detect_eol(body) {
        None => {
            if body.len() > 0 {
                let range = ByteRange { start: 0, end: body.len() };
                let mut tail = vstd::slice::slice_to_vec(body);
                tail.push(0u8);
                assert(body@.subrange(0, body@.len() as int) =~= body@);
                lines.push(
                    BodyLine {
                        number: 1,
                        text_range: range,
                        full_range: range,
                        anchor: LineAnchor::from_line_bytes(tail.as_slice()),
                    },
                );
            }
            assert(line_models(lines@) =~= models(body@));
            return (None, false, lines);
        },
        Some(e) => e,
    };
    let sep = eol.to_bytes();
    let mut start: usize = 0;
    let mut i: usize = 0;
    assert(all.take(0) + line_spans_from(body@, sep@, 0) =~= all);
    assert(line_models(lines@) =~= models(body@).take(0));
    while i < body.len()
        invariant
            start <= i <= body.len(),
            sep@ == types::eol_bytes(eol),
            declared_eol(body@) == Some(eol),
            all == line_spans(body@),
            lines_cover(all, 0, body@.len() as int),
            lines@.len() <= start,
            lines@.len() <= all.len(),
            find_bytes(body@, sep@, start as int) == find_bytes(body@, sep@, i as int),
            all.take(lines@.len() as int) + line_spans_from(body@, sep@, start as int) == all,
            line_models(lines@) == models(body@).take(lines@.len() as int),
            lines@.len() > 0 ==> all[lines@.len() - 1].0.end < all[lines@.len() - 1].1.end,
        decreases body.len() - i,
    {
        let here = bytes::has_at(body, i, sep.as_slice());
        proof {
            assert(here == stands_at(body@, sep@, i as int)) by {
                if i + sep@.len() <= body@.len() {
                    assert(body@.skip(i as int).subrange(0, sep@.len() as int) =~= body@.subrange(
                        i as int,
                        i + sep@.len(),
                    ));
                }
            }
        }
        if here {
            let end: usize = i + sep.len();
            let ghost n = lines@.len() as int;
            proof {
                let rest = line_spans_from(body@, sep@, end as int);
                let first = (
                    Span { start: start as int, end: i as int },
                    Span { start: start as int, end: end as int },
                );
                assert(find_bytes(body@, sep@, i as int) == i);
                assert(start < body@.len());
                assert(line_spans_from(body@, sep@, start as int) == seq![first] + rest);
                assert(all[n] == first);
                assert(all.take(n + 1) + rest =~= all.take(n) + (seq![first] + rest));
            }
            let line = BodyLine {
                number: (lines.len() + 1) as u32,
                text_range: ByteRange { start, end: i },
                full_range: ByteRange { start, end },
                anchor: LineAnchor::from_line_bytes(
                    vstd::slice::slice_subrange(body, start, end),
                ),
            };
            let ghost before = lines@;
            lines.push(line);
            proof {
                assert(line@ == models(body@)[n]);
                assert(line_models(lines@) =~= line_models(before).push(line@));
                assert(models(body@).take(n + 1) =~= models(body@).take(n).push(models(body@)[n]));
            }
            start = end;
            i = end;
        } else {
            i += 1;
        }
    }
    let has_final_eol = start == body.len();
    if start < body.len() {
        let ghost n = lines@.len() as int;
        let mut tail = bytes::copy_range(body, start, body.len());
        tail.push(0u8);
        let range = ByteRange { start, end: body.len() };
        let line = BodyLine {
            number: (lines.len() + 1) as u32,
            text_range: range,
            full_range: range,
            anchor: LineAnchor::from_line_bytes(tail.as_slice()),
        };
        proof {
            let rest = line_spans_from(body@, sep@, start as int);
            assert(rest == seq![(range@, range@)]);
            assert(all[n] == (range@, range@));
            assert(all.len() == n + 1);
        }
        let ghost before = lines@;
        lines.push(line);
        proof {
            assert(line@ == models(body@)[n]);
            assert(line_models(lines@) =~= line_models(before).push(line@));
            assert(models(body@).take(n + 1) =~= models(body@).take(n).push(models(body@)[n]));
        }
    } else {
        assert(line_spans_from(body@, sep@, start as int) =~= Seq::<(Span, Span)>::empty());
        assert(all.take(lines@.len() as int) =~= all);
    }
    assert(models(body@).take(all.len() as int) =~= models(body@));
    (Some(eol), has_final_eol, lines)
}

/// The refusal of an operation that needs the body in one piece.
pub open spec fn fragmented(count: nat, guidance: Seq<char>) -> NbErrorView {
    NbErrorView::FragmentedBody { fragment_count: count as u32, guidance }
}

/// The body of a document that has it in one piece, or its refusal.
pub open spec fn contiguous_body(doc: DocumentView) -> Result<Seq<u8>, NbErrorView> {
    if doc.partition.bodies.len() >= 2 {
        Err(
            fragmented(
                doc.partition.bodies.len(),
                "body line/search/substring/replace require a contiguous body; use metadata ops or a future multi-fragment API"@,
            ),
        )
    } else {
        Ok(doc.body())
    }
}

/// A byte string, or a refusal, and its model agree.
pub open spec fn bytes_agree(
    r: Result<Vec<u8>, NbError>,
    model: Result<Seq<u8>, NbErrorView>,
) -> bool {
    match r {
        Ok(v) => model == Ok::<Seq<u8>, NbErrorView>(v@),
        Err(e) => model == Err::<Seq<u8>, NbErrorView>(e@),
    }
}

/// The body of a document that has it in one piece.
pub fn require_contiguous_body(doc: &NoteDocument) -> (r: Result<Vec<u8>, NbError>)
    ensures
        bytes_agree(r, contiguous_body(doc@)),
{
    let ranges = doc.body_ranges();
    assert(bytes::spans(ranges@).len() == ranges@.len());
    if ranges.len() >= 2 {
        return Err(
            NbError::FragmentedBody {
                fragment_count: ranges.len() as u32,
                guidance:
                    "body line/search/substring/replace require a contiguous body; use metadata ops or a future multi-fragment API".to_string(),
            },
        );
    }
    Ok(doc.body_bytes())
}

/// A body line as it is shown.
pub fn note_line_from_body_line(line: &BodyLine, body: &[u8]) -> (r: NoteLine)
    requires
        bytes::span_within(line.text_range@, body@.len() as int),
    ensures
        r.number == line.number,
        r.anchor@ == line.anchor@,
        r.text@ == text::lossy_text(bytes::slice_of(body@, line.text_range@)),
{
    NoteLine {
        number: line.number,
        anchor: line.anchor.clone(),
        text: text::from_utf8_lossy(
            vstd::slice::slice_subrange(body, line.text_range.start, line.text_range.end),
        ),
    }
}

/// The refusal of a line reference.
pub open spec fn anchor_mismatch(number: u32, guidance: Seq<char>) -> NbErrorView {
    NbErrorView::AnchorMismatch { target: "line "@ + text::decimal(number as nat), number, guidance }
}

/// The line that a reference means: its number must be in range and its anchor must be that
/// of the line.
pub open spec fn referenced(lines: Seq<LineModel>, number: u32, anchor: Seq<char>) -> Result<
    int,
    NbErrorView,
> {
    if number == 0 {
        Err(anchor_mismatch(number, "line numbers are 1-based"@))
    } else if number > lines.len() {
        Err(anchor_mismatch(number, "line number out of range for current body"@))
    } else if lines[number - 1].anchor != anchor {
        Err(
            anchor_mismatch(
                number,
                "line anchor does not match current body bytes; re-read lines and retry"@,
            ),
        )
    } else {
        Ok(number - 1)
    }
}

/// The refusal of a line reference.
fn mismatch(number: u32, guidance: &str) -> (r: NbError)
    ensures
        r@ == anchor_mismatch(number, guidance@),
{
    let digits = text::decimal_of(number as u64);
    NbError::AnchorMismatch {
        target: text::cat2("line ", digits.as_str()),
        number,
        guidance: guidance.to_string(),
    }
}

/// The index of the line that a reference means.
pub fn verify_line_ref(lines: &Vec<BodyLine>, reference: &LineRef) -> (r: Result<usize, NbError>)
    ensures
        match r {
            Ok(i) => referenced(line_models(lines@), reference.number, reference.anchor@) == Ok::<
                int,
                NbErrorView,
            >(i as int) && i < lines@.len(),
            Err(e) => referenced(line_models(lines@), reference.number, reference.anchor@) == Err::<
                int,
                NbErrorView,
            >(e@),
        },
{
    let number: u32 = reference.number;
    if number == 0 {
        return Err(mismatch(number, "line numbers are 1-based"));
    }
    let idx: usize = (number - 1) as usize;
    if idx >= lines.len() {
        return Err(mismatch(number, "line number out of range for current body"));
    }
    assert(line_models(lines@)[idx as int] == lines@[idx as int]@);
    if !lines[idx].anchor.same(&reference.anchor) {
        return Err(
            mismatch(
                number,
                "line anchor does not match current body bytes; re-read lines and retry",
            ),
        );
    }
    Ok(idx)
}

/// A reference to a line of the body that was read from that body is accepted, and means that
/// line.
pub proof fn law_own_reference_is_accepted(body: Seq<u8>, k: int)
    requires
        0 <= k < models(body).len(),
        k < u32::MAX,
    ensures
        referenced(models(body), models(body)[k].number, models(body)[k].anchor) == Ok::<
            int,
            NbErrorView,
        >(k),
{
}

/// The full spans of two referenced lines and all between them.
pub open spec fn span_of(lines: Seq<LineModel>, start: LineRef, end: LineRef) -> Result<
    Span,
    NbErrorView,
> {
    match referenced(lines, start.number, start.anchor@) {
        Err(e) => Err(e),
        Ok(s) => match referenced(lines, end.number, end.anchor@) {
            Err(e) => Err(e),
            Ok(e) => if e < s {
                Err(error::invalid("line edit end is before start"@))
            } else {
                Ok(Span { start: lines[s].full.start, end: lines[e].full.end })
            },
        },
    }
}

/// Where an insertion goes.
pub open spec fn insertion_point(body: Seq<u8>, lines: Seq<LineModel>, at: LinePosition) -> Result<
    int,
    NbErrorView,
> {
    match at {
        LinePosition::Boundary { at: BoundaryAt::Caret } => Ok(0),
        LinePosition::Boundary { at: BoundaryAt::Dollar } => if body.len() == 0 {
            Err(
                error::invalid(
                    "empty body: Caret is the only valid boundary; Dollar requires at least one line"@,
                ),
            )
        } else {
            Ok(body.len() as int)
        },
        LinePosition::Before { line } => match referenced(lines, line.number, line.anchor@) {
            Err(e) => Err(e),
            Ok(k) => Ok(lines[k].full.start),
        },
        LinePosition::After { line } => match referenced(lines, line.number, line.anchor@) {
            Err(e) => Err(e),
            Ok(k) => Ok(lines[k].full.end),
        },
    }
}

/// One edit, resolved: the bytes that go and the bytes that come.
pub struct Change {
    pub span: Span,
    pub insert: Seq<u8>,
}

/// Whether a batch puts new lines into the body.
pub open spec fn introduces_lines(edits: Seq<LineEdit>) -> bool {
    exists|k: int| 0 <= k < edits.len() && (#[trigger] edits[k]) !is Delete
}

/// The ending of new lines: the declared one, else `\n` when the batch introduces lines.
pub open spec fn new_line_ending(body: Seq<u8>, edits: Seq<LineEdit>) -> Seq<u8> {
    match declared_eol(body) {
        Some(e) => types::eol_bytes(e),
        None => if introduces_lines(edits) {
            types::eol_bytes(LineEol::Lf)
        } else {
            Seq::empty()
        },
    }
}

/// What one edit does. An insertion at the end of a body without a final ending first ends
/// the last line.
pub open spec fn change_of(body: Seq<u8>, eol: Seq<u8>, edit: LineEdit) -> Result<
    Change,
    NbErrorView,
> {
    let lines = models(body);
    match edit {
        LineEdit::Insert { at, content } => match insertion_point(body, lines, at) {
            Err(e) => Err(e),
            Ok(pos) => Ok(
                Change {
                    span: Span { start: pos, end: pos },
                    insert: (if body.len() > 0 && !ends_with_eol(body) && pos == body.len() {
                        eol
                    } else {
                        Seq::empty()
                    }) + vstd::utf8::encode_utf8(content@) + eol,
                },
            ),
        },
        LineEdit::Delete { start, end } => match span_of(lines, start, end) {
            Err(e) => Err(e),
            Ok(span) => Ok(Change { span, insert: Seq::empty() }),
        },
        LineEdit::Replace { start, end, content } => match span_of(lines, start, end) {
            Err(e) => Err(e),
            Ok(span) => Ok(Change { span, insert: vstd::utf8::encode_utf8(content@) + eol }),
        },
    }
}

/// What the first `n` edits do, or the refusal of the first that is refused.
pub open spec fn changes_of(body: Seq<u8>, eol: Seq<u8>, edits: Seq<LineEdit>, n: int) -> Result<
    Seq<Change>,
    NbErrorView,
>
    decreases n,
{
    if n <= 0 {
        Ok(Seq::empty())
    } else {
        match changes_of(body, eol, edits, n - 1) {
            Err(e) => Err(e),
            Ok(v) => match change_of(body, eol, edits[n - 1]) {
                Err(e) => Err(e),
                Ok(c) => Ok(v.push(c)),
            },
        }
    }
}

/// Whether two changes touch the same bytes, or insert at the same place.
pub open spec fn clash(a: Span, b: Span) -> bool {
    if a.start == a.end && b.start == b.end {
        a.start == b.start
    } else {
        a.start < b.end && b.start < a.end
    }
}

/// The first clash at or after the pair `(i, j)`.
pub open spec fn first_clash(v: Seq<Change>, i: int, j: int) -> Option<(int, int)>
    decreases v.len() - i, v.len() - j,
{
    if i < 0 || i >= v.len() {
        None
    } else if j >= v.len() {
        first_clash(v, i + 1, i + 2)
    } else if clash(v[i].span, v[j].span) {
        Some((i, j))
    } else {
        first_clash(v, i, j + 1)
    }
}

/// Whether a change is made before another: it lies further back, or it takes lines away at a
/// place where the other only inserts.
pub open spec fn ahead(a: Span, b: Span) -> bool {
    a.start > b.start || (a.start == b.start && a.end > b.end)
}

/// `x` placed before every change that is not ahead of it.
pub open spec fn insert_descending(v: Seq<Change>, x: Change) -> Seq<Change>
    decreases v.len(),
{
    if v.len() == 0 || !ahead(v[0].span, x.span) {
        seq![x] + v
    } else {
        seq![v[0]] + insert_descending(v.skip(1), x)
    }
}

/// The changes from the last place to the first; of two at one place, the insertion last.
pub open spec fn descending(v: Seq<Change>) -> Seq<Change>
    decreases v.len(),
{
    if v.len() == 0 {
        v
    } else {
        insert_descending(descending(v.drop_last()), v.last())
    }
}

/// The first `end` bytes of a body with the changes from `i` on in place: the bytes of each
/// change give way to what it inserts, and all others stay. The changes lie before `end`, the
/// last place first.
pub open spec fn woven(body: Seq<u8>, v: Seq<Change>, i: int, end: int) -> Seq<u8>
    decreases v.len() - i,
{
    if i < 0 || i >= v.len() {
        body.take(end)
    } else {
        woven(body, v, i + 1, v[i].span.start) + v[i].insert + body.subrange(v[i].span.end, end)
    }
}

/// The body after a batch of line edits, or the refusal of the batch.
pub open spec fn edited(body: Seq<u8>, edits: Seq<LineEdit>) -> Result<Seq<u8>, NbErrorView> {
    match changes_of(body, new_line_ending(body, edits), edits, edits.len() as int) {
        Err(e) => Err(e),
        Ok(v) => match first_clash(v, 0, 1) {
            Some((i, j)) => Err(
                NbErrorView::OverlappingEdits { indices: seq![i as u32, j as u32] },
            ),
            None => Ok(woven(body, descending(v), 0, body.len() as int)),
        },
    }
}

/// One edit, resolved.
struct Resolved {
    delete: ByteRange,
    insert: Vec<u8>,
}

impl Resolved {
    spec fn model(self) -> Change {
        Change { span: self.delete@, insert: self.insert@ }
    }
}

spec fn changes(v: Seq<Resolved>) -> Seq<Change> {
    v.map_values(|r: Resolved| r.model())
}

/// Every line of a body lies inside it.
pub proof fn lemma_models(body: Seq<u8>, k: int)
    requires
        0 <= k < models(body).len(),
    ensures
        bytes::span_within(models(body)[k].full, body.len() as int),
        bytes::span_within(models(body)[k].text, body.len() as int),
        models(body)[k].full.start < models(body)[k].full.end,
{
    law_lines_cover_body(body);
    assert(line_spans(body)[k].1.start < line_spans(body)[k].1.end);
}

/// Earlier lines end before later lines start.
pub proof fn lemma_models_order(body: Seq<u8>, j: int, k: int)
    requires
        0 <= j <= k < models(body).len(),
    ensures
        models(body)[j].full.start < models(body)[k].full.end,
{
    law_lines_cover_body(body);
    lemma_models(body, j);
    lemma_models(body, k);
    if j < k {
        assert(line_spans(body)[j].1.end <= line_spans(body)[k].1.start);
    }
}

/// Whether two resolved edits clash.
fn ranges_overlap_or_same_insert(a: &ByteRange, b: &ByteRange) -> (r: bool)
    ensures
        r == clash(a@, b@),
{
    if a.start == a.end && b.start == b.end {
        return a.start == b.start;
    }
    a.start < b.end && b.start < a.end
}

/// The full range of two referenced lines and all between them.
fn inclusive_span(
    body: &[u8],
    lines: &Vec<BodyLine>,
    start: &LineRef,
    end: &LineRef,
) -> (r: Result<ByteRange, NbError>)
    requires
        line_models(lines@) == models(body@),
    ensures
        match r {
            Ok(x) => span_of(models(body@), *start, *end) == Ok::<Span, NbErrorView>(x@)
                && bytes::span_within(x@, body@.len() as int) && x.start < x.end,
            Err(e) => span_of(models(body@), *start, *end) == Err::<Span, NbErrorView>(e@),
        },
{
    let s = match verify_line_ref(lines, start) {
        Ok(s) => s,
        Err(e) => {
            return Err(e);
        },
    };
    let e = match verify_line_ref(lines, end) {
        Ok(e) => e,
        Err(err) => {
            return Err(err);
        },
    };
    if e < s {
        return Err(NbError::invalid("line edit end is before start"));
    }
    proof {
        assert(line_models(lines@)[s as int] == lines@[s as int]@);
        assert(line_models(lines@)[e as int] == lines@[e as int]@);
        lemma_models(body@, s as int);
        lemma_models(body@, e as int);
        lemma_models_order(body@, s as int, e as int);
    }
    Ok(ByteRange { start: lines[s].full_range.start, end: lines[e].full_range.end })
}

/// Where an insertion goes.
fn insert_offset(body: &[u8], lines: &Vec<BodyLine>, at: &LinePosition) -> (r: Result<
    usize,
    NbError,
>)
    requires
        line_models(lines@) == models(body@),
    ensures
        match r {
            Ok(x) => insertion_point(body@, models(body@), *at) == Ok::<int, NbErrorView>(x as int)
                && x <= body@.len(),
            Err(e) => insertion_point(body@, models(body@), *at) == Err::<int, NbErrorView>(e@),
        },
{
    match at {
        LinePosition::Boundary { at: BoundaryAt::Caret } => Ok(0),
        LinePosition::Boundary { at: BoundaryAt::Dollar } => {
            if body.len() == 0 {
                return Err(
                    NbError::invalid(
                        "empty body: Caret is the only valid boundary; Dollar requires at least one line",
                    ),
                );
            }
            Ok(body.len())
        },
        LinePosition::Before { line } => {
            match verify_line_ref(lines, line) {
                Err(e) => Err(e),
                Ok(k) => {
                    proof {
                        assert(line_models(lines@)[k as int] == lines@[k as int]@);
                        lemma_models(body@, k as int);
                    }
                    Ok(lines[k].full_range.start)
                },
            }
        },
        LinePosition::After { line } => {
            match verify_line_ref(lines, line) {
                Err(e) => Err(e),
                Ok(k) => {
                    proof {
                        assert(line_models(lines@)[k as int] == lines@[k as int]@);
                        lemma_models(body@, k as int);
                    }
                    Ok(lines[k].full_range.end)
                },
            }
        },
    }
}

/// Resolve one edit.
fn resolve_edit(
    body: &[u8],
    lines: &Vec<BodyLine>,
    has_final_eol: bool,
    eol: &Vec<u8>,
    edit: &LineEdit,
) -> (r: Result<Resolved, NbError>)
    requires
        line_models(lines@) == models(body@),
        has_final_eol == ends_with_eol(body@),
    ensures
        match r {
            Ok(x) => change_of(body@, eol@, *edit) == Ok::<Change, NbErrorView>(x.model())
                && bytes::span_within(x.delete@, body@.len() as int),
            Err(e) => change_of(body@, eol@, *edit) == Err::<Change, NbErrorView>(e@),
        },
{
    match edit {
        LineEdit::Insert { at, content } => {
            match insert_offset(body, lines, at) {
                Err(e) => Err(e),
                Ok(pos) => {
                    let mut insert: Vec<u8> = Vec::new();
                    let ghost lead = if body@.len() > 0 && !ends_with_eol(body@) && pos
                        == body@.len() {
                        eol@
                    } else {
                        Seq::empty()
                    };
                    if body.len() > 0 && !has_final_eol && pos == body.len() {
                        insert.extend_from_slice(eol.as_slice());
                    }
                    assert(insert@ =~= lead);
                    insert.extend_from_slice(content.as_str().as_bytes());
                    assert(insert@ =~= lead + vstd::utf8::encode_utf8(content@));
                    insert.extend_from_slice(eol.as_slice());
                    assert(insert@ =~= lead + vstd::utf8::encode_utf8(content@) + eol@);
                    Ok(Resolved { delete: ByteRange { start: pos, end: pos }, insert })
                },
            }
        },
        LineEdit::Delete { start, end } => {
            match inclusive_span(body, lines, start, end) {
                Err(e) => Err(e),
                Ok(delete) => {
                    let insert: Vec<u8> = Vec::new();
                    assert(insert@ =~= Seq::<u8>::empty());
                    Ok(Resolved { delete, insert })
                },
            }
        },
        LineEdit::Replace { start, end, content } => {
            match inclusive_span(body, lines, start, end) {
                Err(e) => Err(e),
                Ok(delete) => {
                    let mut insert = vstd::slice::slice_to_vec(content.as_str().as_bytes());
                    insert.extend_from_slice(eol.as_slice());
                    assert(insert@ =~= vstd::utf8::encode_utf8(content@) + eol@);
                    Ok(Resolved { delete, insert })
                },
            }
        },
    }
}

/// No clash is found exactly when no two changes clash.
pub proof fn lemma_no_clash(v: Seq<Change>, i: int, j: int)
    requires
        0 <= i < j,
        first_clash(v, i, j) is None,
    ensures
        forall|k: int| j <= k < v.len() && i < v.len() ==> !clash(v[i].span, (#[trigger] v[k]).span),
        forall|a: int, b: int|
            i < a < b < v.len() ==> !clash((#[trigger] v[a]).span, (#[trigger] v[b]).span),
    decreases v.len() - i, v.len() - j,
{
    if i < v.len() {
        if j >= v.len() {
            lemma_no_clash(v, i + 1, i + 2);
            assert forall|a: int, b: int| i < a < b < v.len() implies !clash(
                (#[trigger] v[a]).span,
                (#[trigger] v[b]).span,
            ) by {
                if a == i + 1 {
                    assert(b >= i + 2);
                }
            }
        } else {
            lemma_no_clash(v, i, j + 1);
        }
    }
}

/// Changes from the last place to the first, no two of which clash.
spec fn in_line(v: Seq<Change>) -> bool {
    &&& forall|a: int, b: int|
        0 <= a < b < v.len() ==> ahead((#[trigger] v[a]).span, (#[trigger] v[b]).span)
    &&& forall|a: int, b: int|
        0 <= a < b < v.len() ==> !clash((#[trigger] v[a]).span, (#[trigger] v[b]).span)
    &&& forall|a: int| 0 <= a < v.len() ==> 0 <= (#[trigger] v[a]).span.start <= v[a].span.end
}

/// Where `insert_descending` puts a change.
proof fn lemma_insert_descending(v: Seq<Change>, x: Change, k: int)
    requires
        0 <= k <= v.len(),
        forall|a: int| 0 <= a < k ==> ahead((#[trigger] v[a]).span, x.span),
        k < v.len() ==> !ahead(v[k].span, x.span),
    ensures
        insert_descending(v, x) == v.insert(k, x),
    decreases v.len(),
{
    if k == 0 {
        assert(seq![x] + v =~= v.insert(0, x));
    } else {
        assert(ahead(v[0].span, x.span));
        let t = v.skip(1);
        assert forall|a: int| 0 <= a < k - 1 implies ahead((#[trigger] t[a]).span, x.span) by {
            assert(t[a] == v[a + 1]);
        }
        lemma_insert_descending(t, x, k - 1);
        assert(seq![v[0]] + t.insert(k - 1, x) =~= v.insert(k, x));
    }
}

/// Placing one more change that clashes with none keeps the changes in line.
proof fn lemma_in_line_insert(v: Seq<Change>, x: Change, k: int)
    requires
        in_line(v),
        0 <= k <= v.len(),
        forall|a: int| 0 <= a < k ==> ahead((#[trigger] v[a]).span, x.span),
        k < v.len() ==> !ahead(v[k].span, x.span),
        0 <= x.span.start <= x.span.end,
        forall|a: int| 0 <= a < v.len() ==> !clash((#[trigger] v[a]).span, x.span),
    ensures
        in_line(v.insert(k, x)),
{
    let w = v.insert(k, x);
    assert forall|a: int| 0 <= a < w.len() implies 0 <= (#[trigger] w[a]).span.start
        <= w[a].span.end by {
        if a < k {
            assert(w[a] == v[a]);
        } else if a > k {
            assert(w[a] == v[a - 1]);
        }
    }
    assert forall|a: int, b: int| 0 <= a < b < w.len() implies ahead(
        (#[trigger] w[a]).span,
        (#[trigger] w[b]).span,
    ) && !clash(w[a].span, w[b].span) by {
        let p = if a < k {
            a
        } else {
            a - 1
        };
        let q = if b < k {
            b
        } else {
            b - 1
        };
        if a != k && b != k {
            assert(w[a] == v[p] && w[b] == v[q]);
        } else if a == k {
            assert(w[b] == v[q]);
            assert(!clash(v[k].span, x.span));
            assert(ahead(x.span, v[k].span));
            if q > k {
                assert(ahead(v[k].span, v[q].span));
            }
        } else {
            assert(w[a] == v[p]);
        }
    }
}

/// Insert a resolved edit before those that are not ahead of it.
fn place_descending(v: &mut Vec<Resolved>, x: Resolved)
    requires
        in_line(changes(old(v)@)),
        0 <= x.model().span.start <= x.model().span.end,
        forall|a: int|
            0 <= a < old(v)@.len() ==> !clash(
                (#[trigger] changes(old(v)@)[a]).span,
                x.model().span,
            ),
    ensures
        changes(final(v)@) == insert_descending(changes(old(v)@), x.model()),
        in_line(changes(final(v)@)),
        final(v)@.len() == old(v)@.len() + 1,
{
    let ghost before = changes(v@);
    let ghost m = x.model();
    let mut k: usize = 0;
    while k < v.len() && (v[k].delete.start > x.delete.start || (v[k].delete.start
        == x.delete.start && v[k].delete.end > x.delete.end))
        invariant
            k <= v.len(),
            before == changes(v@),
            forall|a: int| 0 <= a < k ==> ahead((#[trigger] before[a]).span, x.model().span),
        decreases v.len() - k,
    {
        assert(before[k as int] == v@[k as int].model());
        k += 1;
    }
    proof {
        if k < v@.len() {
            assert(before[k as int] == v@[k as int].model());
        }
        lemma_insert_descending(before, m, k as int);
        lemma_in_line_insert(before, m, k as int);
    }
    let ghost items = v@;
    v.insert(k, x);
    assert(changes(v@) =~= before.insert(k as int, m));
}

/// Placing a change last in `v` keeps the members of the descending order.
pub proof fn lemma_descending_members(v: Seq<Change>, x: Change)
    requires
        descending(v).contains(x),
    ensures
        v.contains(x),
    decreases v.len(),
{
    if v.len() > 0 {
        let d = descending(v.drop_last());
        lemma_insert_members(d, v.last(), x);
        if x == v.last() {
            assert(v[v.len() - 1] == x);
        } else {
            lemma_descending_members(v.drop_last(), x);
            let k = choose|k: int| 0 <= k < v.drop_last().len() && v.drop_last()[k] == x;
            assert(v[k] == x);
        }
    }
}

proof fn lemma_insert_members(d: Seq<Change>, y: Change, x: Change)
    requires
        insert_descending(d, y).contains(x),
    ensures
        x == y || d.contains(x),
    decreases d.len(),
{
    let w = insert_descending(d, y);
    let k = choose|k: int| 0 <= k < w.len() && w[k] == x;
    if d.len() == 0 || !ahead(d[0].span, y.span) {
        if k > 0 {
            assert(d[k - 1] == x);
        }
    } else {
        if k == 0 {
            assert(d[0] == x);
        } else {
            let t = insert_descending(d.skip(1), y);
            assert(t[k - 1] == x);
            assert(t.contains(x));
            lemma_insert_members(d.skip(1), y, x);
            if x != y {
                let m = choose|m: int| 0 <= m < d.skip(1).len() && d.skip(1)[m] == x;
                assert(d[m + 1] == x);
            }
        }
    }
}

/// The line ending for new lines of a batch.
fn eol_for(eol: Option<LineEol>, edits: &Vec<LineEdit>) -> (r: Vec<u8>)
    ensures
        r@ == (match eol {
            Some(e) => types::eol_bytes(e),
            None => if introduces_lines(edits@) {
                types::eol_bytes(LineEol::Lf)
            } else {
                Seq::empty()
            },
        }),
{
    match eol {
        Some(e) => e.to_bytes(),
        None => {
            let mut k: usize = 0;
            while k < edits.len()
                invariant
                    eol is None,
                    k <= edits.len(),
                    forall|j: int| 0 <= j < k ==> (#[trigger] edits@[j]) is Delete,
                decreases edits.len() - k,
            {
                if !matches!(edits[k], LineEdit::Delete { .. }) {
                    assert(edits@[k as int] !is Delete);
                    return LineEol::Lf.to_bytes();
                }
                k += 1;
            }
            let none: Vec<u8> = Vec::new();
            assert(none@ =~= Seq::<u8>::empty());
            none
        },
    }
}

/// The first two resolved edits that clash.
fn find_clash(v: &Vec<Resolved>) -> (r: Option<(usize, usize)>)
    ensures
        match r {
            Some((i, j)) => first_clash(changes(v@), 0, 1) == Some((i as int, j as int)),
            None => first_clash(changes(v@), 0, 1) is None,
        },
{
    let ghost all = changes(v@);
    let mut i: usize = 0;
    while i < v.len()
        invariant
            i <= v.len(),
            all == changes(v@),
            first_clash(all, 0, 1) == first_clash(all, i as int, i + 1),
        decreases v.len() - i,
    {
        let mut j: usize = i + 1;
        while j < v.len()
            invariant
                i < j <= v.len(),
                all == changes(v@),
                first_clash(all, 0, 1) == first_clash(all, i as int, j as int),
            decreases v.len() - j,
        {
            assert(all[i as int] == v@[i as int].model() && all[j as int] == v@[j as int].model());
            if ranges_overlap_or_same_insert(&v[i].delete, &v[j].delete) {
                return Some((i, j));
            }
            j += 1;
        }
        i += 1;
    }
    None
}

/// Apply a batch of line edits to a body.
///
/// Content is bare text; the ending of the body, or `\n` if it has none, is added to it.
pub fn apply_line_edits(body: &[u8], edits: &Vec<LineEdit>) -> (r: Result<Vec<u8>, NbError>)
    ensures
        bytes_agree(r, edited(body@, edits@)),
{
    let (eol_opt, has_final_eol, lines) = document_lines(body);
    let eol = eol_for(eol_opt, edits);
    assert(eol@ == new_line_ending(body@, edits@));
    let mut resolved: Vec<Resolved> = Vec::new();
    let mut k: usize = 0;
    assert(changes(resolved@) =~= Seq::<Change>::empty());
    while k < edits.len()
        invariant
            k <= edits.len(),
            line_models(lines@) == models(body@),
            has_final_eol == ends_with_eol(body@),
            eol@ == new_line_ending(body@, edits@),
            resolved@.len() == k,
            changes_of(body@, eol@, edits@, k as int) == Ok::<Seq<Change>, NbErrorView>(
                changes(resolved@),
            ),
            forall|a: int|
                0 <= a < resolved@.len() ==> bytes::span_within(
                    (#[trigger] changes(resolved@)[a]).span,
                    body@.len() as int,
                ),
        decreases edits.len() - k,
    {
        match resolve_edit(body, &lines, has_final_eol, &eol, &edits[k]) {
            Err(e) => {
                proof {
                    lemma_changes_err(body@, eol@, edits@, k + 1, edits@.len() as int);
                }
                return Err(e);
            },
            Ok(x) => {
                let ghost before = resolved@;
                resolved.push(x);
                proof {
                    assert(changes(resolved@) =~= changes(before).push(x.model()));
                    assert forall|a: int| 0 <= a < resolved@.len() implies bytes::span_within(
                        (#[trigger] changes(resolved@)[a]).span,
                        body@.len() as int,
                    ) by {
                        if a < before.len() {
                            assert(changes(before)[a] == changes(resolved@)[a]);
                        }
                    }
                }
            },
        }
        k += 1;
    }
    let ghost v = changes(resolved@);
    match find_clash(&resolved) {
        Some((i, j)) => {
            let mut indices: Vec<u32> = Vec::new();
            indices.push(i as u32);
            indices.push(j as u32);
            assert(indices@ =~= seq![i as u32, j as u32]);
            return Err(NbError::OverlappingEdits { indices });
        },
        None => {},
    }
    proof {
        lemma_no_clash(v, 0, 1);
    }
    let n: usize = resolved.len();
    let mut sorted: Vec<Resolved> = Vec::new();
    assert(changes(sorted@) =~= Seq::<Change>::empty());
    assert(v.take(0) =~= Seq::<Change>::empty());
    let mut m: usize = 0;
    while m < n
        invariant
            m <= n == resolved.len(),
            v == changes(resolved@),
            forall|a: int|
                0 <= a < v.len() ==> bytes::span_within(
                    (#[trigger] v[a]).span,
                    body@.len() as int,
                ),
            forall|a: int, b: int|
                0 <= a < b < v.len() ==> !clash((#[trigger] v[a]).span, (#[trigger] v[b]).span),
            changes(sorted@) == descending(v.take(m as int)),
            in_line(changes(sorted@)),
        decreases n - m,
    {
        let x = Resolved {
            delete: resolved[m].delete,
            insert: vstd::slice::slice_to_vec(resolved[m].insert.as_slice()),
        };
        proof {
            assert(v[m as int] == resolved@[m as int].model());
            assert(x.model() == v[m as int]);
            assert(bytes::span_within(v[m as int].span, body@.len() as int));
            let d = changes(sorted@);
            assert forall|a: int| 0 <= a < sorted@.len() implies !clash(
                (#[trigger] d[a]).span,
                x.model().span,
            ) by {
                assert(d.contains(d[a]));
                lemma_descending_members(v.take(m as int), d[a]);
                let q = choose|q: int| 0 <= q < v.take(m as int).len() && v.take(m as int)[q]
                    == d[a];
                assert(!clash(v[q].span, v[m as int].span));
            }
            assert(v.take(m + 1).drop_last() =~= v.take(m as int));
            assert(v.take(m + 1).last() == v[m as int]);
        }
        place_descending(&mut sorted, x);
        m += 1;
    }
    assert(v.take(v.len() as int) =~= v);
    let ghost d = changes(sorted@);
    proof {
        assert forall|j: int| 0 <= j < d.len() implies (#[trigger] d[j]).span.end
            <= body@.len() by {
            assert(d.contains(d[j]));
            lemma_descending_members(v, d[j]);
        }
    }
    let mut out = vstd::slice::slice_to_vec(body);
    let mut i: usize = 0;
    let ghost mut end: int = body@.len() as int;
    let ghost mut done: Seq<u8> = Seq::empty();
    proof {
        assert(out@ =~= body@.take(end) + done);
        assert(woven(body@, d, 0, end) =~= woven(body@, d, 0, end) + done);
    }
    while i < sorted.len()
        invariant
            i <= sorted.len(),
            d == changes(sorted@),
            in_line(d),
            0 <= end <= body@.len(),
            forall|j: int| i <= j < d.len() ==> (#[trigger] d[j]).span.end <= end,
            out@ == body@.take(end) + done,
            woven(body@, d, 0, body@.len() as int) == woven(body@, d, i as int, end) + done,
        decreases sorted.len() - i,
    {
        let ghost c = d[i as int];
        assert(c == sorted@[i as int].model());
        assert(0 <= c.span.start <= c.span.end <= end);
        out =
        bytes::splice(
            out.as_slice(),
            sorted[i].delete.start,
            sorted[i].delete.end,
            sorted[i].insert.as_slice(),
        );
        proof {
            assert forall|j: int| i < j < d.len() implies (#[trigger] d[j]).span.end
                <= c.span.start by {
                assert(ahead(d[i as int].span, d[j].span));
                assert(!clash(d[i as int].span, d[j].span));
            }
            let more = c.insert + body@.subrange(c.span.end, end) + done;
            assert(out@ =~= body@.take(c.span.start) + more);
            assert(woven(body@, d, i as int, end) + done =~= woven(
                body@,
                d,
                i + 1,
                c.span.start,
            ) + more);
            done = more;
            end = c.span.start;
        }
        i += 1;
    }
    assert(woven(body@, d, i as int, end) + done =~= body@.take(end) + done);
    Ok(out)
}

/// A refused edit refuses the batch.
proof fn lemma_changes_err(body: Seq<u8>, eol: Seq<u8>, edits: Seq<LineEdit>, k: int, n: int)
    requires
        k <= n,
        changes_of(body, eol, edits, k) is Err,
        0 <= k,
    ensures
        changes_of(body, eol, edits, n) == changes_of(body, eol, edits, k),
    decreases n - k,
{
    if k < n {
        lemma_changes_err(body, eol, edits, k, n - 1);
    }
}

/// The changes that the edits of a batch make.
spec fn makes(body: Seq<u8>, eol: Seq<u8>, edits: Seq<LineEdit>, v: Seq<Change>) -> bool {
    &&& v.len() == edits.len()
    &&& forall|k: int|
        0 <= k < edits.len() ==> change_of(body, eol, #[trigger] edits[k]) == Ok::<
            Change,
            NbErrorView,
        >(v[k])
}

/// A batch is resolved exactly when each of its edits is.
pub proof fn lemma_changes_are(body: Seq<u8>, eol: Seq<u8>, edits: Seq<LineEdit>, n: int)
    requires
        0 <= n <= edits.len(),
    ensures
        changes_of(body, eol, edits, n) is Ok <==> forall|k: int|
            0 <= k < n ==> change_of(body, eol, #[trigger] edits[k]) is Ok,
        changes_of(body, eol, edits, n) matches Ok(v) ==> v.len() == n && forall|k: int|
            0 <= k < n ==> change_of(body, eol, #[trigger] edits[k]) == Ok::<Change, NbErrorView>(
                v[k],
            ),
    decreases n,
{
    if n > 0 {
        lemma_changes_are(body, eol, edits, n - 1);
        if changes_of(body, eol, edits, n - 1) is Err {
            let k = choose|k: int|
                0 <= k < n - 1 && change_of(body, eol, #[trigger] edits[k]) is Err;
            assert(change_of(body, eol, edits[k]) is Err);
        }
    }
}

/// A clash anywhere is found.
pub proof fn lemma_clash_found(v: Seq<Change>, i: int, j: int)
    requires
        0 <= i < j,
        forall|a: int, b: int|
            0 <= a < b < v.len() ==> !clash((#[trigger] v[a]).span, (#[trigger] v[b]).span),
    ensures
        first_clash(v, i, j) is None,
    decreases v.len() - i, v.len() - j,
{
    if i < v.len() {
        if j >= v.len() {
            lemma_clash_found(v, i + 1, i + 2);
        } else {
            assert(!clash(v[i].span, v[j].span));
            lemma_clash_found(v, i, j + 1);
        }
    }
}

/// Every change has its place in the descending order.
proof fn lemma_descending_keeps(v: Seq<Change>, x: Change)
    requires
        v.contains(x),
    ensures
        descending(v).contains(x),
    decreases v.len(),
{
    let d = descending(v.drop_last());
    lemma_insert_keeps(d, v.last(), x);
    let k = choose|k: int| 0 <= k < v.len() && v[k] == x;
    if k < v.len() - 1 {
        assert(v.drop_last()[k] == x);
        lemma_descending_keeps(v.drop_last(), x);
    }
}

proof fn lemma_insert_keeps(d: Seq<Change>, y: Change, x: Change)
    ensures
        x == y || d.contains(x) ==> insert_descending(d, y).contains(x),
    decreases d.len(),
{
    if x == y || d.contains(x) {
        let w = insert_descending(d, y);
        if d.len() == 0 || !ahead(d[0].span, y.span) {
            if x == y {
                assert(w[0] == x);
            } else {
                let k = choose|k: int| 0 <= k < d.len() && d[k] == x;
                assert(w[k + 1] == x);
            }
        } else {
            let t = d.skip(1);
            lemma_insert_keeps(t, y, x);
            if x != y && x == d[0] {
                assert(w[0] == x);
            } else {
                if x != y {
                    let k = choose|k: int| 0 <= k < d.len() && d[k] == x;
                    assert(t[k - 1] == x);
                }
                let r = insert_descending(t, y);
                let k = choose|k: int| 0 <= k < r.len() && r[k] == x;
                assert(w[k + 1] == x);
            }
        }
    }
}

/// Changes no two of which clash come into line.
proof fn lemma_descending_in_line(v: Seq<Change>)
    requires
        forall|a: int| 0 <= a < v.len() ==> 0 <= (#[trigger] v[a]).span.start <= v[a].span.end,
        forall|a: int, b: int|
            0 <= a < b < v.len() ==> !clash((#[trigger] v[a]).span, (#[trigger] v[b]).span),
    ensures
        in_line(descending(v)),
    decreases v.len(),
{
    if v.len() > 0 {
        let init = v.drop_last();
        let x = v.last();
        assert forall|a: int| 0 <= a < init.len() implies 0 <= (#[trigger] init[a]).span.start
            <= init[a].span.end by {
            assert(init[a] == v[a]);
        }
        assert forall|a: int, b: int| 0 <= a < b < init.len() implies !clash(
            (#[trigger] init[a]).span,
            (#[trigger] init[b]).span,
        ) by {
            assert(init[a] == v[a] && init[b] == v[b]);
        }
        lemma_descending_in_line(init);
        let d = descending(init);
        assert forall|a: int| 0 <= a < d.len() implies !clash((#[trigger] d[a]).span, x.span) by {
            assert(d.contains(d[a]));
            lemma_descending_members(init, d[a]);
            let q = choose|q: int| 0 <= q < init.len() && init[q] == d[a];
            assert(!clash(v[q].span, v[v.len() - 1].span));
        }
        assert(0 <= v[v.len() - 1].span.start <= v[v.len() - 1].span.end);
        let k = lemma_descending_place(d, x);
        lemma_insert_descending(d, x, k);
        lemma_in_line_insert(d, x, k);
    }
}

/// Where a change goes among changes in line.
proof fn lemma_descending_place(d: Seq<Change>, x: Change) -> (k: int)
    requires
        in_line(d),
    ensures
        0 <= k <= d.len(),
        forall|a: int| 0 <= a < k ==> ahead((#[trigger] d[a]).span, x.span),
        k < d.len() ==> !ahead(d[k].span, x.span),
{
    let p = |c: Change| !ahead(c.span, x.span);
    let k = bytes::find_from(d, p, 0);
    bytes::lemma_find_from(d, p, 0);
    assert forall|a: int| 0 <= a < k implies ahead((#[trigger] d[a]).span, x.span) by {
        assert(!p(d[a]));
    }
    k
}

/// Changes in line are determined by which they are.
proof fn lemma_in_line_unique(a: Seq<Change>, b: Seq<Change>)
    requires
        in_line(a),
        in_line(b),
        forall|x: Change| a.contains(x) <==> b.contains(x),
    ensures
        a == b,
    decreases a.len(),
{
    if a.len() == 0 {
        if b.len() > 0 {
            assert(b.contains(b[0]));
        }
        assert(a =~= b);
    } else {
        assert(a.contains(a[0]));
        assert(b.contains(a[0]));
        let j = choose|j: int| 0 <= j < b.len() && b[j] == a[0];
        assert(b.contains(b[0]));
        assert(a.contains(b[0]));
        let i = choose|i: int| 0 <= i < a.len() && a[i] == b[0];
        if j > 0 {
            assert(ahead(b[0].span, b[j].span));
            if i > 0 {
                assert(ahead(a[0].span, a[i].span));
            }
        }
        assert(a[0] == b[0]);
        let s = a.skip(1);
        let t = b.skip(1);
        lemma_in_line_rest(a);
        lemma_in_line_rest(b);
        assert forall|x: Change| s.contains(x) <==> t.contains(x) by {
            if s.contains(x) {
                let k = choose|k: int| 0 <= k < s.len() && s[k] == x;
                assert(a[k + 1] == x);
                assert(a.contains(x));
                let m = choose|m: int| 0 <= m < b.len() && b[m] == x;
                assert(ahead(a[0].span, a[k + 1].span));
                assert(t[m - 1] == x);
            }
            if t.contains(x) {
                let k = choose|k: int| 0 <= k < t.len() && t[k] == x;
                assert(b[k + 1] == x);
                assert(b.contains(x));
                let m = choose|m: int| 0 <= m < a.len() && a[m] == x;
                assert(ahead(b[0].span, b[k + 1].span));
                assert(s[m - 1] == x);
            }
        }
        lemma_in_line_unique(s, t);
        assert(a =~= seq![a[0]] + s);
        assert(b =~= seq![b[0]] + t);
    }
}

proof fn lemma_in_line_rest(a: Seq<Change>)
    requires
        in_line(a),
        a.len() > 0,
    ensures
        in_line(a.skip(1)),
{
    let s = a.skip(1);
    assert forall|i: int, j: int| 0 <= i < j < s.len() implies ahead(
        (#[trigger] s[i]).span,
        (#[trigger] s[j]).span,
    ) && !clash(s[i].span, s[j].span) by {
        assert(s[i] == a[i + 1] && s[j] == a[j + 1]);
    }
    assert forall|i: int| 0 <= i < s.len() implies 0 <= (#[trigger] s[i]).span.start
        <= s[i].span.end by {
        assert(s[i] == a[i + 1]);
    }
}

/// The bytes that an edit names lie inside the body.
pub proof fn lemma_change_within(body: Seq<u8>, eol: Seq<u8>, edit: LineEdit)
    requires
        change_of(body, eol, edit) is Ok,
    ensures
        bytes::span_within(change_of(body, eol, edit)->Ok_0.span, body.len() as int),
{
    let m = models(body);
    match edit {
        LineEdit::Insert { at, content } => match at {
            LinePosition::Boundary { at: b } => {},
            LinePosition::Before { line } => {
                lemma_models(body, referenced(m, line.number, line.anchor@)->Ok_0);
            },
            LinePosition::After { line } => {
                lemma_models(body, referenced(m, line.number, line.anchor@)->Ok_0);
            },
        },
        LineEdit::Delete { start, end } => {
            lemma_span_within(body, start, end);
        },
        LineEdit::Replace { start, end, content } => {
            lemma_span_within(body, start, end);
        },
    }
}

proof fn lemma_span_within(body: Seq<u8>, start: LineRef, end: LineRef)
    requires
        span_of(models(body), start, end) is Ok,
    ensures
        bytes::span_within(span_of(models(body), start, end)->Ok_0, body.len() as int),
{
    let m = models(body);
    let s = referenced(m, start.number, start.anchor@)->Ok_0;
    let e = referenced(m, end.number, end.anchor@)->Ok_0;
    lemma_models(body, s);
    lemma_models(body, e);
    lemma_models_order(body, s, e);
}

/// An edit of a batch in another order stands in the batch too.
proof fn lemma_reordered(e1: Seq<LineEdit>, e2: Seq<LineEdit>)
    requires
        e1.to_multiset() == e2.to_multiset(),
    ensures
        forall|x: LineEdit| e1.contains(x) <==> e2.contains(x),
        e1.no_duplicates() ==> e2.no_duplicates(),
{
    e1.to_multiset_ensures();
    e2.to_multiset_ensures();
    assert forall|x: LineEdit| e1.contains(x) <==> e2.contains(x) by {
        vstd::seq_lib::to_multiset_contains(e1, x);
        vstd::seq_lib::to_multiset_contains(e2, x);
        assert(e1.to_multiset().count(x) == e2.to_multiset().count(x));
    }
    if e1.no_duplicates() {
        e1.lemma_multiset_has_no_duplicates();
        e2.lemma_multiset_has_no_duplicates_conv();
    }
}

/// Batches of the same edits end new lines alike.
proof fn lemma_same_ending(body: Seq<u8>, e1: Seq<LineEdit>, e2: Seq<LineEdit>)
    requires
        forall|x: LineEdit| e1.contains(x) <==> e2.contains(x),
    ensures
        new_line_ending(body, e1) == new_line_ending(body, e2),
{
    if introduces_lines(e1) {
        let k = choose|k: int| 0 <= k < e1.len() && (#[trigger] e1[k]) !is Delete;
        assert(e1.contains(e1[k]));
        let j = choose|j: int| 0 <= j < e2.len() && e2[j] == e1[k];
        assert(e2[j] !is Delete);
    }
    if introduces_lines(e2) {
        let k = choose|k: int| 0 <= k < e2.len() && (#[trigger] e2[k]) !is Delete;
        assert(e2.contains(e2[k]));
        let j = choose|j: int| 0 <= j < e1.len() && e1[j] == e2[k];
        assert(e1[j] !is Delete);
    }
}

/// No two changes clash.
spec fn free_of_clashes(v: Seq<Change>) -> bool {
    forall|a: int, b: int|
        0 <= a < b < v.len() ==> !clash((#[trigger] v[a]).span, (#[trigger] v[b]).span)
}

/// Edits whose changes do not clash are different.
proof fn lemma_apart_distinct(
    body: Seq<u8>,
    eol: Seq<u8>,
    edits: Seq<LineEdit>,
    v: Seq<Change>,
)
    requires
        makes(body, eol, edits, v),
        free_of_clashes(v),
    ensures
        edits.no_duplicates(),
{
    assert forall|i: int, j: int|
        0 <= i < edits.len() && 0 <= j < edits.len() && i != j implies edits[i] != edits[j] by {
        let (p, q) = if i < j {
            (i, j)
        } else {
            (j, i)
        };
        assert(change_of(body, eol, edits[p]) == Ok::<Change, NbErrorView>(v[p]));
        assert(change_of(body, eol, edits[q]) == Ok::<Change, NbErrorView>(v[q]));
        lemma_change_within(body, eol, edits[p]);
        assert(!clash(v[p].span, v[q].span));
    }
}

/// Changes that do not clash in one order do not clash in another.
proof fn lemma_reordered_apart(
    body: Seq<u8>,
    eol: Seq<u8>,
    e1: Seq<LineEdit>,
    e2: Seq<LineEdit>,
    v1: Seq<Change>,
    v2: Seq<Change>,
)
    requires
        makes(body, eol, e1, v1),
        makes(body, eol, e2, v2),
        free_of_clashes(v1),
        e2.no_duplicates(),
        forall|x: LineEdit| e2.contains(x) ==> e1.contains(x),
    ensures
        free_of_clashes(v2),
{
    assert forall|a: int, b: int| 0 <= a < b < v2.len() implies !clash(
        (#[trigger] v2[a]).span,
        (#[trigger] v2[b]).span,
    ) by {
        assert(e2.contains(e2[a]) && e2.contains(e2[b]));
        let p = choose|p: int| 0 <= p < e1.len() && e1[p] == e2[a];
        let q = choose|q: int| 0 <= q < e1.len() && e1[q] == e2[b];
        assert(e2[a] != e2[b]);
        assert(change_of(body, eol, e1[p]) == Ok::<Change, NbErrorView>(v1[p]));
        assert(change_of(body, eol, e1[q]) == Ok::<Change, NbErrorView>(v1[q]));
        assert(v2[a] == v1[p] && v2[b] == v1[q]);
        if p < q {
            assert(!clash(v1[p].span, v1[q].span));
        } else {
            assert(!clash(v1[q].span, v1[p].span));
        }
    }
}

/// The changes of a batch lie inside the body.
proof fn lemma_made_within(body: Seq<u8>, eol: Seq<u8>, edits: Seq<LineEdit>, v: Seq<Change>)
    requires
        makes(body, eol, edits, v),
    ensures
        forall|a: int| 0 <= a < v.len() ==> 0 <= (#[trigger] v[a]).span.start <= v[a].span.end,
{
    assert forall|a: int| 0 <= a < v.len() implies 0 <= (#[trigger] v[a]).span.start
        <= v[a].span.end by {
        assert(change_of(body, eol, edits[a]) == Ok::<Change, NbErrorView>(v[a]));
        lemma_change_within(body, eol, edits[a]);
    }
}

/// The order of the edits in a batch does not matter: an accepted batch is accepted in every
/// order, and gives the same body.
pub proof fn law_edit_order_does_not_matter(body: Seq<u8>, e1: Seq<LineEdit>, e2: Seq<LineEdit>)
    requires
        edited(body, e1) is Ok,
        e1.to_multiset() == e2.to_multiset(),
    ensures
        edited(body, e2) == edited(body, e1),
{
    lemma_reordered(e1, e2);
    lemma_same_ending(body, e1, e2);
    let eol = new_line_ending(body, e1);
    lemma_changes_are(body, eol, e1, e1.len() as int);
    lemma_changes_are(body, eol, e2, e2.len() as int);
    assert forall|k: int| 0 <= k < e2.len() implies change_of(body, eol, #[trigger] e2[k]) is Ok by {
        assert(e2.contains(e2[k]));
        let j = choose|j: int| 0 <= j < e1.len() && e1[j] == e2[k];
        assert(change_of(body, eol, e1[j]) is Ok);
    }
    let v1 = changes_of(body, eol, e1, e1.len() as int)->Ok_0;
    let v2 = changes_of(body, eol, e2, e2.len() as int)->Ok_0;
    assert(makes(body, eol, e1, v1));
    assert(makes(body, eol, e2, v2));
    lemma_no_clash(v1, 0, 1);
    assert(free_of_clashes(v1)) by {
        assert forall|a: int, b: int| 0 <= a < b < v1.len() implies !clash(
            (#[trigger] v1[a]).span,
            (#[trigger] v1[b]).span,
        ) by {}
    }
    lemma_apart_distinct(body, eol, e1, v1);
    lemma_reordered_apart(body, eol, e1, e2, v1, v2);
    lemma_clash_found(v2, 0, 1);
    lemma_made_within(body, eol, e1, v1);
    lemma_made_within(body, eol, e2, v2);
    lemma_descending_in_line(v1);
    lemma_descending_in_line(v2);
    lemma_same_changes(body, eol, e1, e2, v1, v2);
    lemma_same_changes(body, eol, e2, e1, v2, v1);
    lemma_in_line_unique(descending(v1), descending(v2));
}

/// The changes of one batch are among those of another that holds its edits.
proof fn lemma_same_changes(
    body: Seq<u8>,
    eol: Seq<u8>,
    e1: Seq<LineEdit>,
    e2: Seq<LineEdit>,
    v1: Seq<Change>,
    v2: Seq<Change>,
)
    requires
        makes(body, eol, e1, v1),
        makes(body, eol, e2, v2),
        forall|x: LineEdit| e1.contains(x) ==> e2.contains(x),
    ensures
        forall|x: Change| descending(v1).contains(x) ==> descending(v2).contains(x),
{
    assert forall|x: Change| descending(v1).contains(x) implies descending(v2).contains(x) by {
        lemma_descending_members(v1, x);
        let k = choose|k: int| 0 <= k < v1.len() && v1[k] == x;
        assert(change_of(body, eol, e1[k]) == Ok::<Change, NbErrorView>(x));
        assert(e1.contains(e1[k]));
        let j = choose|j: int| 0 <= j < e2.len() && e2[j] == e1[k];
        assert(change_of(body, eol, e2[j]) == Ok::<Change, NbErrorView>(v2[j]));
        assert(v2.contains(x));
        lemma_descending_keeps(v2, x);
    }
}

/// An empty batch changes nothing.
pub proof fn law_no_edit_changes_nothing(body: Seq<u8>)
    ensures
        edited(body, Seq::empty()) == Ok::<Seq<u8>, NbErrorView>(body),
{
    let none = Seq::<Change>::empty();
    assert(descending(none) == none);
    assert(first_clash(none, 0, 1) is None);
    assert(body.take(body.len() as int) =~= body);
}

/// The non-overlapping occurrences of `pattern` from `start` on, leftmost first.
pub open spec fn occurrences(s: Seq<u8>, pattern: Seq<u8>, start: int) -> Seq<Span>
    decreases s.len() - start,
{
    if start < 0 || pattern.len() == 0 || start + pattern.len() > s.len() {
        Seq::empty()
    } else if stands_at(s, pattern, start) {
        seq![Span { start, end: start + pattern.len() }] + occurrences(
            s,
            pattern,
            start + pattern.len(),
        )
    } else {
        occurrences(s, pattern, start + 1)
    }
}

/// Occurrences are those of the pattern, in order and apart.
pub proof fn lemma_occurrences(s: Seq<u8>, pattern: Seq<u8>, start: int)
    requires
        0 <= start,
    ensures
        forall|k: int|
            0 <= k < occurrences(s, pattern, start).len() ==> start <= (#[trigger] occurrences(
                s,
                pattern,
                start,
            )[k]).start && stands_at(s, pattern, occurrences(s, pattern, start)[k].start)
                && occurrences(s, pattern, start)[k].end == occurrences(
                s,
                pattern,
                start,
            )[k].start + pattern.len(),
        forall|j: int, k: int|
            0 <= j < k < occurrences(s, pattern, start).len() ==> (#[trigger] occurrences(
                s,
                pattern,
                start,
            )[j]).end <= (#[trigger] occurrences(s, pattern, start)[k]).start,
    decreases s.len() - start,
{
    let v = occurrences(s, pattern, start);
    if pattern.len() > 0 && start + pattern.len() <= s.len() {
        if stands_at(s, pattern, start) {
            let rest = occurrences(s, pattern, start + pattern.len());
            lemma_occurrences(s, pattern, start + pattern.len());
            assert(v == seq![Span { start, end: start + pattern.len() }] + rest);
            assert forall|k: int| 0 <= k < v.len() implies start <= (#[trigger] v[k]).start
                && stands_at(s, pattern, v[k].start) && v[k].end == v[k].start + pattern.len() by {
                if k > 0 {
                    assert(v[k] == rest[k - 1]);
                }
            }
            assert forall|j: int, k: int| 0 <= j < k < v.len() implies (#[trigger] v[j]).end <= (
            #[trigger] v[k]).start by {
                assert(v[k] == rest[k - 1]);
                if j > 0 {
                    assert(v[j] == rest[j - 1]);
                }
            }
        } else {
            lemma_occurrences(s, pattern, start + 1);
            assert(v == occurrences(s, pattern, start + 1));
        }
    }
}

/// The non-overlapping occurrences of a non-empty pattern, leftmost first.
fn matches_in(s: &[u8], pattern: &[u8]) -> (r: Vec<ByteRange>)
    requires
        pattern@.len() > 0,
    ensures
        bytes::spans(r@) == occurrences(s@, pattern@, 0),
{
    let mut out: Vec<ByteRange> = Vec::new();
    let ghost all = occurrences(s@, pattern@, 0);
    let mut start: usize = 0;
    assert(bytes::spans(out@) + all =~= all);
    while start < s.len() && pattern.len() <= s.len() - start
        invariant
            start <= s.len(),
            pattern@.len() > 0,
            bytes::spans(out@) + occurrences(s@, pattern@, start as int) == all,
        decreases s.len() - start,
    {
        let here = bytes::has_at(s, start, pattern);
        assert(s@.skip(start as int).subrange(0, pattern@.len() as int) =~= s@.subrange(
            start as int,
            start + pattern@.len(),
        ));
        if here {
            let end: usize = start + pattern.len();
            let m = ByteRange { start, end };
            let ghost before = out@;
            out.push(m);
            proof {
                let rest = occurrences(s@, pattern@, end as int);
                assert(bytes::spans(out@) =~= bytes::spans(before).push(m@));
                assert(bytes::spans(before) + (seq![m@] + rest) =~= bytes::spans(out@) + rest);
            }
            start = end;
        } else {
            start += 1;
        }
    }
    assert(bytes::spans(out@) + occurrences(s@, pattern@, start as int) =~= bytes::spans(out@));
    out
}

/// The non-overlapping occurrences of `pattern` in `body`, leftmost first.
pub fn find_matches(body: &[u8], pattern: &[u8]) -> (r: Result<Vec<ByteRange>, NbError>)
    ensures
        match r {
            Ok(v) => pattern@.len() > 0 && bytes::spans(v@) == occurrences(body@, pattern@, 0),
            Err(e) => pattern@.len() == 0 && e@ == NbErrorView::EmptySubstringPattern,
        },
{
    if pattern.len() == 0 {
        return Err(NbError::EmptySubstringPattern);
    }
    Ok(matches_in(body, pattern))
}

/// The occurrences that are meant.
pub open spec fn selected(v: Seq<Span>, which: Occurrence) -> Seq<Span> {
    match which {
        Occurrence::First => if v.len() > 0 {
            seq![v[0]]
        } else {
            Seq::empty()
        },
        Occurrence::All => v,
        Occurrence::Nth { n } => if 0 < n <= v.len() {
            seq![v[n - 1]]
        } else {
            Seq::empty()
        },
    }
}

/// `s` with each of the spans replaced, the last one first.
pub open spec fn replaced(s: Seq<u8>, v: Seq<Span>, with: Seq<u8>) -> Seq<u8>
    decreases v.len(),
{
    if v.len() == 0 {
        s
    } else {
        replaced(bytes::spliced(s, v.last().start, v.last().end, with), v.drop_last(), with)
    }
}

/// A body after a substring edit, or the refusal of the edit.
pub open spec fn substituted(
    body: Seq<u8>,
    pattern: Seq<u8>,
    with: Seq<u8>,
    which: Occurrence,
    expected: u32,
) -> Result<Seq<u8>, NbErrorView> {
    let v = occurrences(body, pattern, 0);
    if pattern.len() == 0 {
        Err(NbErrorView::EmptySubstringPattern)
    } else if v.len() as u32 != expected {
        Err(NbErrorView::OccurrenceMismatch { expected, actual: v.len() as u32 })
    } else if which == (Occurrence::Nth { n: 0 }) {
        Err(error::invalid("occurrence nth.n is 1-based; 0 is invalid"@))
    } else {
        Ok(replaced(body, selected(v, which), with))
    }
}

/// Spans in order and apart, inside a sequence of `len` bytes.
spec fn apart(v: Seq<Span>, len: int) -> bool {
    &&& forall|k: int| 0 <= k < v.len() ==> bytes::span_within(#[trigger] v[k], len)
    &&& forall|j: int, k: int|
        0 <= j < k < v.len() ==> (#[trigger] v[j]).end <= (#[trigger] v[k]).start
}

/// Replace each of the ranges, the last one first.
fn replace_ranges(body: &[u8], v: &Vec<ByteRange>, with: &[u8]) -> (r: Vec<u8>)
    requires
        apart(bytes::spans(v@), body@.len() as int),
    ensures
        r@ == replaced(body@, bytes::spans(v@), with@),
{
    let ghost all = bytes::spans(v@);
    let mut out = vstd::slice::slice_to_vec(body);
    let mut n: usize = v.len();
    assert(all.take(all.len() as int) =~= all);
    while n > 0
        invariant
            n <= v.len(),
            all == bytes::spans(v@),
            apart(all, body@.len() as int),
            forall|k: int| 0 <= k < n ==> (#[trigger] all[k]).end <= out@.len(),
            replaced(body@, all, with@) == replaced(out@, all.take(n as int), with@),
        decreases n,
    {
        let x = v[n - 1];
        proof {
            assert(all[n - 1] == x@);
            assert(bytes::span_within(all[n - 1], body@.len() as int));
            assert(all.take(n as int).last() == x@);
            assert(all.take(n as int).drop_last() =~= all.take(n - 1));
        }
        out = bytes::splice(out.as_slice(), x.start, x.end, with);
        assert forall|k: int| 0 <= k < n - 1 implies (#[trigger] all[k]).end <= out@.len() by {
            assert(all[k].end <= all[n - 1].start);
        }
        n -= 1;
    }
    assert(all.take(0) =~= Seq::<Span>::empty());
    out
}

/// Replace occurrences of a pattern in a body, provided that it occurs as often as expected.
pub fn apply_substring(
    body: &[u8],
    pattern: &[u8],
    replacement: &[u8],
    occurrence: &Occurrence,
    expected_count: u32,
) -> (r: Result<Vec<u8>, NbError>)
    ensures
        bytes_agree(
            r,
            substituted(body@, pattern@, replacement@, *occurrence, expected_count),
        ),
{
    let matches = match find_matches(body, pattern) {
        Ok(v) => v,
        Err(e) => {
            return Err(e);
        },
    };
    let ghost all = bytes::spans(matches@);
    let actual: u32 = matches.len() as u32;
    assert(all.len() == matches@.len());
    if actual != expected_count {
        return Err(NbError::OccurrenceMismatch { expected: expected_count, actual });
    }
    let mut chosen: Vec<ByteRange> = Vec::new();
    match occurrence {
        Occurrence::First => {
            if matches.len() > 0 {
                chosen.push(matches[0]);
            }
            assert(bytes::spans(chosen@) =~= selected(all, *occurrence));
        },
        Occurrence::All => {
            chosen = matches;
            assert(bytes::spans(chosen@) =~= selected(all, *occurrence));
        },
        Occurrence::Nth { n } => {
            if *n == 0 {
                return Err(NbError::invalid("occurrence nth.n is 1-based; 0 is invalid"));
            }
            let at: usize = (*n - 1) as usize;
            if at < matches.len() {
                chosen.push(matches[at]);
            }
            assert(bytes::spans(chosen@) =~= selected(all, *occurrence));
        },
    }
    proof {
        lemma_occurrences(body@, pattern@, 0);
        let w = bytes::spans(chosen@);
        assert forall|k: int| 0 <= k < w.len() implies bytes::span_within(
            #[trigger] w[k],
            body@.len() as int,
        ) by {
            assert(exists|q: int| 0 <= q < all.len() && all[q] == w[k]);
        }
    }
    Ok(replace_ranges(body, &chosen, replacement))
}

/// Replacing occurrences of a pattern by the pattern itself changes nothing.
pub proof fn law_substituting_itself_changes_nothing(
    body: Seq<u8>,
    pattern: Seq<u8>,
    which: Occurrence,
    expected: u32,
)
    ensures
        substituted(body, pattern, pattern, which, expected) matches Ok(r) ==> r == body,
{
    let v = selected(occurrences(body, pattern, 0), which);
    lemma_occurrences(body, pattern, 0);
    assert forall|k: int| 0 <= k < v.len() implies stands_at(
        body,
        pattern,
        (#[trigger] v[k]).start,
    ) && v[k].end == v[k].start + pattern.len() by {
        let all = occurrences(body, pattern, 0);
        assert(exists|q: int| 0 <= q < all.len() && all[q] == v[k]);
    }
    lemma_replace_itself(body, v, pattern);
}

proof fn lemma_replace_itself(s: Seq<u8>, v: Seq<Span>, pattern: Seq<u8>)
    requires
        forall|k: int|
            0 <= k < v.len() ==> stands_at(s, pattern, (#[trigger] v[k]).start) && v[k].end
                == v[k].start + pattern.len(),
    ensures
        replaced(s, v, pattern) == s,
    decreases v.len(),
{
    if v.len() > 0 {
        let x = v.last();
        assert(v[v.len() - 1] == x);
        assert(s.subrange(x.start, x.end) =~= pattern);
        assert(bytes::spliced(s, x.start, x.end, pattern) =~= s) by {
            let t = bytes::spliced(s, x.start, x.end, pattern);
            assert(t.len() == s.len());
            assert forall|i: int| 0 <= i < s.len() implies t[i] == s[i] by {
                if x.start <= i < x.end {
                    assert(s.subrange(x.start, x.end)[i - x.start] == s[i]);
                }
            }
        }
        assert forall|k: int| 0 <= k < v.drop_last().len() implies stands_at(
            s,
            pattern,
            (#[trigger] v.drop_last()[k]).start,
        ) && v.drop_last()[k].end == v.drop_last()[k].start + pattern.len() by {
            assert(v.drop_last()[k] == v[k]);
        }
        lemma_replace_itself(s, v.drop_last(), pattern);
    }
}

/// The model of a [`NoteLineHit`].
#[verifier::ext_equal]
pub struct HitModel {
    pub number: u32,
    pub anchor: Seq<char>,
    pub start_byte: u32,
    pub end_byte: u32,
    pub text: Option<Seq<char>>,
}

/// The model of a hit.
pub open spec fn hit_model(h: NoteLineHit) -> HitModel {
    HitModel {
        number: h.number,
        anchor: h.anchor@,
        start_byte: h.start_byte,
        end_byte: h.end_byte,
        text: error::opt_text(h.text),
    }
}

/// The models of a vector of hits.
pub open spec fn hit_models(v: Seq<NoteLineHit>) -> Seq<HitModel> {
    v.map_values(|h: NoteLineHit| hit_model(h))
}

/// One hit for each occurrence in the text of a line.
pub open spec fn line_hits(body: Seq<u8>, line: LineModel, pattern: Seq<u8>) -> Seq<HitModel> {
    let t = bytes::slice_of(body, line.text);
    occurrences(t, pattern, 0).map_values(
        |m: Span|
            HitModel {
                number: line.number,
                anchor: line.anchor,
                start_byte: m.start as u32,
                end_byte: m.end as u32,
                text: Some(text::lossy_text(t)),
            },
    )
}

/// The hits of the first `n` lines.
pub open spec fn hits_of(
    body: Seq<u8>,
    lines: Seq<LineModel>,
    pattern: Seq<u8>,
    n: int,
) -> Seq<HitModel>
    decreases n,
{
    if n <= 0 {
        Seq::empty()
    } else {
        hits_of(body, lines, pattern, n - 1) + line_hits(body, lines[n - 1], pattern)
    }
}

/// The hits of one line.
fn hits_in_line(body: &[u8], line: &BodyLine, pattern: &[u8]) -> (r: Vec<NoteLineHit>)
    requires
        bytes::span_within(line.text_range@, body@.len() as int),
        pattern@.len() > 0,
    ensures
        hit_models(r@) == line_hits(body@, line@, pattern@),
{
    let t = vstd::slice::slice_subrange(body, line.text_range.start, line.text_range.end);
    let found = matches_in(t, pattern);
    let ghost all = line_hits(body@, line@, pattern@);
    let mut out: Vec<NoteLineHit> = Vec::new();
    let mut k: usize = 0;
    assert(hit_models(out@) =~= all.take(0));
    assert(all.len() == bytes::spans(found@).len());
    while k < found.len()
        invariant
            k <= found.len(),
            found@.len() == all.len(),
            t@ == bytes::slice_of(body@, line@.text),
            bytes::spans(found@) == occurrences(t@, pattern@, 0),
            all == line_hits(body@, line@, pattern@),
            hit_models(out@) == all.take(k as int),
        decreases found.len() - k,
    {
        assert(bytes::spans(found@)[k as int] == found@[k as int]@);
        let hit = NoteLineHit {
            number: line.number,
            anchor: line.anchor.clone(),
            start_byte: found[k].start as u32,
            end_byte: found[k].end as u32,
            text: Some(text::from_utf8_lossy(t)),
        };
        let ghost before = out@;
        out.push(hit);
        proof {
            assert(hit_model(hit) == all[k as int]);
            assert(hit_models(out@) =~= hit_models(before).push(hit_model(hit)));
            assert(all.take(k + 1) =~= all.take(k as int).push(all[k as int]));
        }
        k += 1;
    }
    assert(all.take(all.len() as int) =~= all);
    out
}

/// Search the texts of the lines of a body.
pub fn search_lines(body: &[u8], pattern: &[u8]) -> (r: Result<Vec<NoteLineHit>, NbError>)
    ensures
        match r {
            Ok(v) => pattern@.len() > 0 && hit_models(v@) == hits_of(
                body@,
                models(body@),
                pattern@,
                models(body@).len() as int,
            ),
            Err(e) => pattern@.len() == 0 && e@ == NbErrorView::EmptySubstringPattern,
        },
{
    if pattern.len() == 0 {
        return Err(NbError::EmptySubstringPattern);
    }
    let (_, _, lines) = document_lines(body);
    let mut out: Vec<NoteLineHit> = Vec::new();
    let mut i: usize = 0;
    assert(hit_models(out@) =~= Seq::<HitModel>::empty());
    assert(line_models(lines@).len() == lines@.len());
    while i < lines.len()
        invariant
            i <= lines.len(),
            pattern@.len() > 0,
            line_models(lines@) == models(body@),
            lines@.len() == models(body@).len(),
            hit_models(out@) == hits_of(body@, models(body@), pattern@, i as int),
        decreases lines.len() - i,
    {
        proof {
            assert(line_models(lines@)[i as int] == lines@[i as int]@);
            lemma_models(body@, i as int);
        }
        let mut hits = hits_in_line(body, &lines[i], pattern);
        let ghost before = out@;
        let ghost more = hits@;
        out.append(&mut hits);
        assert(hit_models(out@) =~= hit_models(before) + hit_models(more));
        i += 1;
    }
    Ok(out)
}

/// Each line takes at least one byte.
proof fn lemma_line_count(body: Seq<u8>, k: int)
    requires
        0 <= k < models(body).len(),
    ensures
        k < line_spans(body)[k].1.end <= body.len(),
    decreases k,
{
    law_lines_cover_body(body);
    let v = line_spans(body);
    assert(v[k].1.start < v[k].1.end);
    if k > 0 {
        lemma_line_count(body, k - 1);
        assert(v[k - 1].1.end <= v[k].1.start);
    }
}

/// The test for the hits of one line.
pub open spec fn numbered(number: int) -> spec_fn(HitModel) -> bool {
    |h: HitModel| h.number == number
}

/// Hits that all pass a test, or all fail it.
proof fn lemma_filter_uniform(v: Seq<HitModel>, p: spec_fn(HitModel) -> bool)
    ensures
        (forall|i: int| 0 <= i < v.len() ==> p(#[trigger] v[i])) ==> v.filter(p) == v,
        (forall|i: int| 0 <= i < v.len() ==> !p(#[trigger] v[i])) ==> v.filter(p) == Seq::<
            HitModel,
        >::empty(),
    decreases v.len(),
{
    reveal(Seq::filter);
    if v.len() > 0 {
        let init = v.drop_last();
        lemma_filter_uniform(init, p);
        if forall|i: int| 0 <= i < v.len() ==> p(#[trigger] v[i]) {
            assert forall|i: int| 0 <= i < init.len() implies p(#[trigger] init[i]) by {
                assert(p(v[i]));
            }
            assert(p(v[v.len() - 1]));
            assert(init.push(v.last()) =~= v);
        }
        if forall|i: int| 0 <= i < v.len() ==> !p(#[trigger] v[i]) {
            assert forall|i: int| 0 <= i < init.len() implies !p(#[trigger] init[i]) by {
                assert(!p(v[i]));
            }
            assert(!p(v[v.len() - 1]));
        }
    }
}

/// Whether a hit comes before another: on an earlier line, or further to the left.
pub open spec fn hit_before(a: HitModel, b: HitModel) -> bool {
    a.number < b.number || (a.number == b.number && a.end_byte <= b.start_byte)
}

/// A hit of the line at index `k`: an occurrence inside the text of the line.
pub open spec fn hit_in(body: Seq<u8>, pattern: Seq<u8>, k: int, h: HitModel) -> bool {
    let line = models(body)[k];
    let t = bytes::slice_of(body, line.text);
    &&& h.number == k + 1
    &&& h.anchor == line.anchor
    &&& h.end_byte == h.start_byte + pattern.len()
    &&& h.end_byte <= t.len()
    &&& t.subrange(h.start_byte as int, h.end_byte as int) == pattern
    &&& h.text == Some(text::lossy_text(t))
}

/// The hits of one line, in order.
proof fn lemma_line_hits(body: Seq<u8>, pattern: Seq<u8>, k: int)
    requires
        0 <= k < models(body).len(),
        body.len() <= u32::MAX,
        pattern.len() > 0,
    ensures
        ({
            let line = models(body)[k];
            let v = line_hits(body, line, pattern);
            let m = occurrences(bytes::slice_of(body, line.text), pattern, 0);
            &&& v.len() == m.len()
            &&& forall|i: int|
                0 <= i < v.len() ==> hit_in(body, pattern, k, #[trigger] v[i]) && v[i].start_byte
                    == m[i].start && v[i].end_byte == m[i].end
            &&& forall|i: int, j: int|
                0 <= i < j < v.len() ==> hit_before(#[trigger] v[i], #[trigger] v[j])
        }),
{
    let line = models(body)[k];
    let t = bytes::slice_of(body, line.text);
    let v = line_hits(body, line, pattern);
    let m = occurrences(t, pattern, 0);
    lemma_occurrences(t, pattern, 0);
    lemma_models(body, k);
    lemma_line_count(body, k);
    assert(line.number == k + 1);
    assert forall|i: int| 0 <= i < v.len() implies hit_in(body, pattern, k, #[trigger] v[i])
        && v[i].start_byte == m[i].start && v[i].end_byte == m[i].end by {
        assert(stands_at(t, pattern, m[i].start));
        assert(m[i].end == m[i].start + pattern.len());
        assert(m[i].end <= t.len() <= u32::MAX);
        assert(t.subrange(m[i].start, m[i].end) =~= pattern);
    }
    assert forall|i: int, j: int| 0 <= i < j < v.len() implies hit_before(
        #[trigger] v[i],
        #[trigger] v[j],
    ) by {
        assert(m[i].end <= m[j].start);
    }
}

/// The hits of the first lines, in order, each of one of them.
proof fn lemma_hits_in_order(body: Seq<u8>, pattern: Seq<u8>, n: int)
    requires
        0 <= n <= models(body).len(),
        body.len() <= u32::MAX,
        pattern.len() > 0,
    ensures
        ({
            let v = hits_of(body, models(body), pattern, n);
            &&& forall|i: int|
                0 <= i < v.len() ==> 1 <= (#[trigger] v[i]).number <= n && hit_in(
                    body,
                    pattern,
                    v[i].number - 1,
                    v[i],
                )
            &&& forall|i: int, j: int|
                0 <= i < j < v.len() ==> hit_before(#[trigger] v[i], #[trigger] v[j])
        }),
    decreases n,
{
    if n > 0 {
        lemma_hits_in_order(body, pattern, n - 1);
        lemma_line_hits(body, pattern, n - 1);
        let a = hits_of(body, models(body), pattern, n - 1);
        let b = line_hits(body, models(body)[n - 1], pattern);
        let v = a + b;
        assert forall|i: int| 0 <= i < v.len() implies 1 <= (#[trigger] v[i]).number <= n && hit_in(
            body,
            pattern,
            v[i].number - 1,
            v[i],
        ) by {
            if i < a.len() {
                assert(v[i] == a[i]);
            } else {
                assert(v[i] == b[i - a.len()]);
            }
        }
        assert forall|i: int, j: int| 0 <= i < j < v.len() implies hit_before(
            #[trigger] v[i],
            #[trigger] v[j],
        ) by {
            if j < a.len() {
                assert(v[i] == a[i] && v[j] == a[j]);
            } else if i < a.len() {
                assert(v[i] == a[i] && v[j] == b[j - a.len()]);
                assert(hit_in(body, pattern, n - 1, b[j - a.len()]));
            } else {
                assert(v[i] == b[i - a.len()] && v[j] == b[j - a.len()]);
            }
        }
    }
}

/// The hits with the number of one line among those of the first lines.
proof fn lemma_hits_of_line(body: Seq<u8>, pattern: Seq<u8>, n: int, k: int)
    requires
        0 <= n <= models(body).len(),
        0 <= k < models(body).len(),
        body.len() <= u32::MAX,
        pattern.len() > 0,
    ensures
        hits_of(body, models(body), pattern, n).filter(numbered(k + 1)) == (if k < n {
            line_hits(body, models(body)[k], pattern)
        } else {
            Seq::empty()
        }),
    decreases n,
{
    let p = numbered(k + 1);
    if n <= 0 {
        lemma_filter_uniform(Seq::empty(), p);
        assert(hits_of(body, models(body), pattern, n) =~= Seq::<HitModel>::empty());
    } else {
        lemma_hits_of_line(body, pattern, n - 1, k);
        lemma_line_hits(body, pattern, n - 1);
        let a = hits_of(body, models(body), pattern, n - 1);
        let b = line_hits(body, models(body)[n - 1], pattern);
        Seq::filter_distributes_over_add(a, b, p);
        lemma_filter_uniform(b, p);
        if n - 1 == k {
            assert forall|i: int| 0 <= i < b.len() implies p(#[trigger] b[i]) by {
                assert(hit_in(body, pattern, n - 1, b[i]));
            }
            assert(Seq::<HitModel>::empty() + b =~= b);
        } else {
            assert forall|i: int| 0 <= i < b.len() implies !p(#[trigger] b[i]) by {
                assert(hit_in(body, pattern, n - 1, b[i]));
            }
            assert(a.filter(p) + Seq::<HitModel>::empty() =~= a.filter(p));
        }
    }
}

/// A search finds, line by line, exactly the occurrences in the text of the line: the hits with
/// the number of a line are its occurrences, with its anchor; all hits come in order of line and
/// place, and none takes in a line ending. This leaves out bodies too long for the numbers of
/// hits.
pub proof fn law_hits_are_the_occurrences(body: Seq<u8>, pattern: Seq<u8>)
    requires
        body.len() <= u32::MAX,
        pattern.len() > 0,
    ensures
        ({
            let lines = models(body);
            let hits = hits_of(body, lines, pattern, lines.len() as int);
            &&& forall|i: int|
                0 <= i < hits.len() ==> 1 <= (#[trigger] hits[i]).number <= lines.len() && hit_in(
                    body,
                    pattern,
                    hits[i].number - 1,
                    hits[i],
                )
            &&& forall|i: int, j: int|
                0 <= i < j < hits.len() ==> hit_before(#[trigger] hits[i], #[trigger] hits[j])
            &&& forall|k: int|
                0 <= k < lines.len() ==> ({
                    let own = hits.filter(numbered(k + 1));
                    let found = occurrences(
                        bytes::slice_of(body, (#[trigger] lines[k]).text),
                        pattern,
                        0,
                    );
                    &&& own.len() == found.len()
                    &&& forall|i: int|
                        0 <= i < own.len() ==> (#[trigger] own[i]).start_byte == found[i].start
                            && own[i].end_byte == found[i].end && own[i].anchor
                            == lines[k].anchor
                })
        }),
{
    let lines = models(body);
    let n = lines.len() as int;
    let hits = hits_of(body, lines, pattern, n);
    lemma_hits_in_order(body, pattern, n);
    assert forall|k: int| 0 <= k < lines.len() implies ({
        let own = hits.filter(numbered(k + 1));
        let found = occurrences(bytes::slice_of(body, (#[trigger] lines[k]).text), pattern, 0);
        &&& own.len() == found.len()
        &&& forall|i: int|
            0 <= i < own.len() ==> (#[trigger] own[i]).start_byte == found[i].start
                && own[i].end_byte == found[i].end && own[i].anchor == lines[k].anchor
    }) by {
        lemma_hits_of_line(body, pattern, n, k);
        lemma_line_hits(body, pattern, k);
    }
}

/// The source of a document with its body replaced, or the refusal. A document without a body
/// gets it at the end.
pub open spec fn body_replaced(doc: DocumentView, new_body: Seq<u8>) -> Result<
    Seq<u8>,
    NbErrorView,
> {
    let v = doc.partition.bodies;
    if v.len() >= 2 {
        Err(fragmented(v.len(), "replace_note_body requires a contiguous body"@))
    } else if v.len() == 0 {
        Ok(doc.source + new_body)
    } else {
        Ok(bytes::spliced(doc.source, v[0].start, v[0].end, new_body))
    }
}

/// Put a new body into a document that has its body in one piece.
pub fn splice_body(doc: &NoteDocument, new_body: &[u8]) -> (r: Result<Vec<u8>, NbError>)
    ensures
        bytes_agree(r, body_replaced(doc@, new_body@)),
{
    let ranges = doc.body_ranges();
    assert(bytes::spans(ranges@).len() == ranges@.len());
    if ranges.len() >= 2 {
        return Err(
            NbError::FragmentedBody {
                fragment_count: ranges.len() as u32,
                guidance: "replace_note_body requires a contiguous body".to_string(),
            },
        );
    }
    let source = doc.source();
    if ranges.len() == 0 {
        let mut out = vstd::slice::slice_to_vec(source);
        out.extend_from_slice(new_body);
        assert(out@ =~= doc@.source + new_body@);
        return Ok(out);
    }
    let span = ranges[0];
    assert(bytes::spans(ranges@)[0] == span@);
    Ok(bytes::splice(source, span.start, span.end, new_body))
}

/// Replacing a body by itself changes nothing.
pub proof fn law_replacing_body_by_itself_changes_nothing(doc: DocumentView)
    requires
        doc.partition.within(doc.source.len() as int),
        doc.partition.bodies.len() < 2,
    ensures
        body_replaced(doc, doc.body()) == Ok::<Seq<u8>, NbErrorView>(doc.source),
{
    let v = doc.partition.bodies;
    if v.len() == 0 {
        assert(doc.source + doc.body() =~= doc.source);
    } else {
        let r = v[0];
        assert(bytes::span_within(r, doc.source.len() as int));
        assert(v.last() == r);
        assert(v.drop_last() =~= Seq::<Span>::empty());
        reveal_with_fuel(crate::parser::document::concat_ranges, 2);
        assert(doc.body() =~= bytes::slice_of(doc.source, r));
        assert(bytes::spliced(doc.source, r.start, r.end, doc.body()) =~= doc.source);
    }
}

/// A title line with a line feed at its end.
pub open spec fn title_line(t: Seq<u8>) -> Seq<u8> {
    if t.len() > 0 && t.last() == LF {
        t
    } else {
        t.push(LF)
    }
}

/// The source of a document with its title line replaced; a document without one gets it in
/// front, set apart by an empty line.
pub open spec fn title_replaced(doc: DocumentView, title: Seq<u8>) -> Seq<u8> {
    let line = title_line(title);
    match doc.partition.title {
        Some(r) => bytes::spliced(doc.source, r.start, r.end, line),
        None => if doc.source.len() > 0 && doc.source[0] != LF {
            line.push(LF) + doc.source
        } else {
            line + doc.source
        },
    }
}

/// Put a new title line into a document.
pub fn splice_title(doc: &NoteDocument, new_title_line: &[u8]) -> (r: Result<Vec<u8>, NbError>)
    ensures
        r matches Ok(v) && v@ == title_replaced(doc@, new_title_line@),
{
    let source = doc.source();
    let mut title = vstd::slice::slice_to_vec(new_title_line);
    if title.len() == 0 || title[title.len() - 1] != LF {
        title.push(LF);
    }
    assert(title@ =~= title_line(new_title_line@));
    match doc.title_byte_range() {
        Some(span) => Ok(bytes::splice(source, span.start, span.end, title.as_slice())),
        None => {
            if source.len() > 0 && source[0] != LF {
                title.push(LF);
            }
            let ghost head = title@;
            title.extend_from_slice(source);
            assert(title@ =~= head + source@);
            Ok(title)
        },
    }
}

/// Replacing a body leaves what is around it as it was.
pub proof fn law_body_edit_keeps_surroundings(doc: DocumentView, new_body: Seq<u8>)
    requires
        doc.partition.within(doc.source.len() as int),
        doc.partition.bodies.len() == 1,
    ensures
        ({
            let r = doc.partition.bodies[0];
            body_replaced(doc, new_body) matches Ok(s) && s.take(r.start) == doc.source.take(r.start)
                && s.subrange(r.start, r.start + new_body.len()) == new_body && s.skip(
                r.start + new_body.len(),
            ) == doc.source.skip(r.end)
        }),
{
    let r = doc.partition.bodies[0];
    assert(bytes::span_within(r, doc.source.len() as int));
    let s = bytes::spliced(doc.source, r.start, r.end, new_body);
    assert(s.take(r.start) =~= doc.source.take(r.start));
    assert(s.subrange(r.start, r.start + new_body.len()) =~= new_body);
    assert(s.skip(r.start + new_body.len()) =~= doc.source.skip(r.end));
}

} // verus!
