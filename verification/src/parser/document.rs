//! The parsed document and its accessors.

use crate::bytes;
use crate::bytes::{ByteRange, Span};
use crate::parser::helpers;
use crate::parser::helpers::{parse_todo_state_from_title, tag_token_spans_in};
use crate::parser::partition;
use crate::parser::partition::{Partition, PartitionView};
use crate::text;
use vstd::prelude::*;

verus! {

/// The checkbox state of a task title.
#[derive(Debug, Clone, Copy, PartialEq, Eq, Structural)]
pub enum TodoState {
    Open,
    Done,
}

/// The three kinds of document.
#[derive(Debug, Clone, Copy, PartialEq, Eq, Structural)]
pub enum DocumentKind {
    Note,
    Todo,
    Bookmark,
}

/// How the kind of a document is determined.
#[derive(Debug, Clone, PartialEq, Eq)]
pub enum ParseContext {
    /// By the suffix of a path.
    FromPath(String),
    /// By the caller.
    Explicit(DocumentKind),
}

/// A parsed note, task or bookmark: its source, byte for byte, and the partition of it.
#[derive(Debug, PartialEq, Eq)]
pub struct NoteDocument {
    source: Vec<u8>,
    partition: Partition,
}

/// The model of a [`NoteDocument`].
#[verifier::ext_equal]
pub struct DocumentView {
    pub source: Seq<u8>,
    pub partition: PartitionView,
}

/// The bytes of several ranges, one after the other.
pub open spec fn concat_ranges(source: Seq<u8>, v: Seq<Span>) -> Seq<u8>
    decreases v.len(),
{
    if v.len() == 0 {
        Seq::empty()
    } else {
        concat_ranges(source, v.drop_last()) + bytes::slice_of(source, v.last())
    }
}

/// The bytes of each of several ranges.
pub open spec fn slices(source: Seq<u8>, v: Seq<Span>) -> Seq<Seq<u8>> {
    v.map_values(|r: Span| bytes::slice_of(source, r))
}

/// The bytes of an optional range.
pub open spec fn opt_slice(source: Seq<u8>, r: Option<Span>) -> Option<Seq<u8>> {
    match r {
        Some(r) => Some(bytes::slice_of(source, r)),
        None => None,
    }
}

/// The byte strings that a vector of slices refers to.
pub open spec fn slice_views(v: Seq<&[u8]>) -> Seq<Seq<u8>> {
    v.map_values(|s: &[u8]| s@)
}

/// A text read from bytes, or a refusal, says what UTF-8 decoding says.
pub open spec fn reads_as(r: Result<&str, core::str::Utf8Error>, b: Seq<u8>) -> bool {
    match r {
        Ok(s) => vstd::utf8::valid_utf8(b) && s@ == vstd::utf8::decode_utf8(b),
        Err(_) => !vstd::utf8::valid_utf8(b),
    }
}

impl DocumentView {
    /// The body fragments, one after the other.
    pub open spec fn body(self) -> Seq<u8> {
        concat_ranges(self.source, self.partition.bodies)
    }

    /// The checkbox state of the title; tasks only.
    pub open spec fn todo_state(self) -> Option<TodoState> {
        if self.partition.kind != DocumentKind::Todo {
            None
        } else {
            match self.partition.title {
                Some(r) => helpers::title_state(bytes::slice_of(self.source, r)),
                None => None,
            }
        }
    }

    /// The spans of the tags, without their `#`.
    pub open spec fn tag_spans(self) -> Seq<Span> {
        helpers::tag_tokens_in(self.source, self.partition.tags)
    }

    /// Every source byte belongs to exactly one range.
    pub open spec fn partition_fault(self) -> Option<Seq<char>> {
        partition::partition_fault(self.partition.covered(), self.source.len() as int)
    }
}

impl View for NoteDocument {
    type V = DocumentView;

    closed spec fn view(&self) -> DocumentView {
        DocumentView { source: self.source@, partition: self.partition@ }
    }
}

/// Push the ranges of a vector.
fn push_all(out: &mut Vec<ByteRange>, v: &Vec<ByteRange>)
    ensures
        bytes::spans(final(out)@) == bytes::spans(old(out)@) + bytes::spans(v@),
{
    let ghost before = bytes::spans(out@);
    let mut i: usize = 0;
    assert(bytes::spans(v@).take(0) =~= Seq::<Span>::empty());
    assert(before + Seq::<Span>::empty() =~= before);
    while i < v.len()
        invariant
            i <= v.len(),
            bytes::spans(out@) == before + bytes::spans(v@).take(i as int),
        decreases v.len() - i,
    {
        let ghost prior = out@;
        out.push(v[i]);
        proof {
            assert(bytes::spans(out@) =~= bytes::spans(prior).push(v@[i as int]@));
            assert(bytes::spans(v@).take(i + 1) =~= bytes::spans(v@).take(i as int).push(
                v@[i as int]@,
            ));
            assert(before + bytes::spans(v@).take(i + 1) =~= (before + bytes::spans(v@).take(
                i as int,
            )).push(v@[i as int]@));
        }
        i += 1;
    }
    assert(bytes::spans(v@).take(v@.len() as int) =~= bytes::spans(v@));
}

/// Push an optional range.
fn push_opt(out: &mut Vec<ByteRange>, r: Option<ByteRange>)
    ensures
        bytes::spans(final(out)@) == bytes::spans(old(out)@) + partition::opt_seq(
            bytes::opt_span(r),
        ),
{
    let ghost before = out@;
    match r {
        Some(r) => {
            out.push(r);
            assert(bytes::spans(out@) =~= bytes::spans(before) + seq![r@]);
        },
        None => {
            assert(bytes::spans(out@) =~= bytes::spans(before) + Seq::<Span>::empty());
        },
    }
}

/// Insert a range after those that start no later.
fn insert_sorted(v: &mut Vec<ByteRange>, x: ByteRange)
    ensures
        bytes::spans(final(v)@) == partition::insert_by_start(bytes::spans(old(v)@), x@),
{
    let ghost before = v@;
    let mut k: usize = v.len();
    assert(bytes::spans(before).take(k as int) =~= bytes::spans(before));
    assert(bytes::spans(before).skip(k as int) =~= Seq::<Span>::empty());
    assert(partition::insert_by_start(bytes::spans(before), x@) + Seq::<Span>::empty()
        =~= partition::insert_by_start(bytes::spans(before), x@));
    while k > 0 && v[k - 1].start > x.start
        invariant
            k <= v.len(),
            v@ == before,
            partition::insert_by_start(bytes::spans(before), x@) == partition::insert_by_start(
                bytes::spans(before).take(k as int),
                x@,
            ) + bytes::spans(before).skip(k as int),
        decreases k,
    {
        proof {
            let w = bytes::spans(before).take(k as int);
            let y = bytes::spans(before)[k - 1];
            assert(w.last() == y);
            assert(w.drop_last() =~= bytes::spans(before).take(k - 1));
            assert(partition::insert_by_start(w.drop_last(), x@).push(y) + bytes::spans(
                before,
            ).skip(k as int) =~= partition::insert_by_start(w.drop_last(), x@) + bytes::spans(
                before,
            ).skip(k - 1));
        }
        k -= 1;
    }
    proof {
        let w = bytes::spans(before).take(k as int);
        if k > 0 {
            assert(w.last() == before[k - 1]@);
        }
        assert(partition::insert_by_start(w, x@) == w.push(x@));
        assert(bytes::spans(before.insert(k as int, x)) =~= w.push(x@) + bytes::spans(before).skip(
            k as int,
        ));
    }
    v.insert(k, x);
}

impl Clone for NoteDocument {
    fn clone(&self) -> (r: Self)
        ensures
            r@ == self@,
    {
        proof {
            use_type_invariant(self);
        }
        NoteDocument {
            source: vstd::slice::slice_to_vec(self.source.as_slice()),
            partition: self.partition.clone(),
        }
    }
}

impl NoteDocument {
    #[verifier::type_invariant]
    spec fn sound(self) -> bool {
        self.partition@.within(self.source@.len() as int)
    }

    /// A document with the given source and a partition that stays inside it.
    pub(crate) fn assembled(source: Vec<u8>, partition: Partition) -> (r: Self)
        requires
            partition@.within(source@.len() as int),
        ensures
            r@ == (DocumentView { source: source@, partition: partition@ }),
    {
        NoteDocument { source, partition }
    }

    /// The source bytes, identical to the input of the parse.
    pub fn source(&self) -> (r: &[u8])
        ensures
            r@ == self@.source,
    {
        self.source.as_slice()
    }

    /// The source bytes again: nothing is reformatted.
    pub fn emit(&self) -> (r: &[u8])
        ensures
            r@ == self@.source,
    {
        self.source.as_slice()
    }

    /// Every range of the partition, prefix first.
    fn covered(&self) -> (r: Vec<ByteRange>)
        ensures
            bytes::spans(r@) == self@.partition.covered(),
    {
        let p = &self.partition;
        let mut out: Vec<ByteRange> = Vec::new();
        out.push(p.prefix_range);
        assert(bytes::spans(out@) =~= seq![p@.prefix]);
        let is_note = p.kind == DocumentKind::Note;
        push_opt(&mut out, p.title_range);
        if is_note {
            push_opt(&mut out, p.tags_range);
        } else {
            push_opt(&mut out, p.url_range);
        }
        push_all(&mut out, &p.separator_ranges);
        if !is_note {
            push_opt(&mut out, p.tags_range);
        }
        push_all(&mut out, &p.body_ranges);
        assert(bytes::spans(out@) =~= p@.covered());
        out
    }

    /// Check that the partition covers every source byte exactly once, in half-open ranges
    /// inside the source; the error names the first violation.
    pub fn verify_partition(&self) -> (r: Result<(), &'static str>)
        ensures
            match r {
                Ok(()) => self@.partition_fault() is None,
                Err(m) => self@.partition_fault() == Some(m@),
            },
    {
        let len: usize = self.source.len();
        let covered = self.covered();
        let ghost v = bytes::spans(covered@);
        let mut i: usize = 0;
        while i < covered.len()
            invariant
                i <= covered.len(),
                v == bytes::spans(covered@),
                len == self@.source.len(),
                v == self@.partition.covered(),
                partition::range_fault(v, len as int, 0) == partition::range_fault(
                    v,
                    len as int,
                    i as int,
                ),
            decreases covered.len() - i,
        {
            assert(v[i as int] == covered@[i as int]@);
            if covered[i].start > covered[i].end {
                return Err("range not half-open (start > end)");
            }
            if covered[i].end > len {
                return Err("range extends past source.len()");
            }
            i += 1;
        }
        let mut sorted: Vec<ByteRange> = Vec::new();
        let mut j: usize = 0;
        assert(bytes::spans(sorted@) =~= Seq::<Span>::empty());
        assert(v.take(0) =~= Seq::<Span>::empty());
        while j < covered.len()
            invariant
                j <= covered.len(),
                v == bytes::spans(covered@),
                bytes::spans(sorted@) == partition::sort_by_start(v.take(j as int)),
            decreases covered.len() - j,
        {
            insert_sorted(&mut sorted, covered[j]);
            assert(v.take(j + 1).drop_last() =~= v.take(j as int));
            assert(v.take(j + 1).last() == covered@[j as int]@);
            j += 1;
        }
        assert(v.take(v.len() as int) =~= v);
        let ghost w = bytes::spans(sorted@);
        let mut k: usize = 0;
        while sorted.len() > 1 && k < sorted.len() - 1
            invariant
                k <= sorted.len(),
                w == bytes::spans(sorted@),
                w == partition::sort_by_start(v),
                len == self@.source.len(),
                v == self@.partition.covered(),
                partition::range_fault(v, len as int, 0) is None,
                partition::seam_fault(w, 0) == partition::seam_fault(w, k as int),
            decreases sorted.len() - k,
        {
            assert(w[k as int] == sorted@[k as int]@ && w[k + 1] == sorted@[k + 1]@);
            if sorted[k].end > sorted[k + 1].start {
                return Err("ranges overlap");
            }
            if sorted[k].end < sorted[k + 1].start {
                return Err("partition leaves a gap (internal unassigned bytes)");
            }
            k += 1;
        }
        if sorted.len() == 0 || sorted[0].start != 0 {
            return Err("partition does not start at byte 0");
        }
        assert(w.last() == sorted@[sorted@.len() - 1]@);
        if sorted[sorted.len() - 1].end != len {
            return Err("partition does not cover to source.len()");
        }
        Ok(())
    }

    /// The kind of the document.
    pub fn kind(&self) -> (r: DocumentKind)
        ensures
            r == self@.partition.kind,
    {
        self.partition.kind
    }

    /// The bytes of a range that lies inside the source.
    fn slice(&self, r: ByteRange) -> (s: &[u8])
        requires
            bytes::span_within(r@, self@.source.len() as int),
        ensures
            s@ == bytes::slice_of(self@.source, r@),
    {
        vstd::slice::slice_subrange(self.source.as_slice(), r.start, r.end)
    }

    /// The checkbox state of the title; tasks only.
    pub fn todo_state(&self) -> (r: Option<TodoState>)
        ensures
            r == self@.todo_state(),
    {
        proof {
            use_type_invariant(self);
        }
        if self.partition.kind != DocumentKind::Todo {
            return None;
        }
        match self.partition.title_range {
            Some(r) => parse_todo_state_from_title(self.slice(r)),
            None => None,
        }
    }

    /// Where the title line is.
    pub fn title_byte_range(&self) -> (r: Option<ByteRange>)
        ensures
            bytes::opt_span(r) == self@.partition.title,
            r matches Some(x) ==> bytes::span_within(x@, self@.source.len() as int),
    {
        proof {
            use_type_invariant(self);
        }
        self.partition.title_range
    }

    /// Where the tag line or tag section is.
    pub fn tags_byte_range(&self) -> (r: Option<ByteRange>)
        ensures
            bytes::opt_span(r) == self@.partition.tags,
            r matches Some(x) ==> bytes::span_within(x@, self@.source.len() as int),
    {
        proof {
            use_type_invariant(self);
        }
        self.partition.tags_range
    }

    /// The title line, break included.
    pub fn title(&self) -> (r: Option<&[u8]>)
        ensures
            match r {
                Some(s) => opt_slice(self@.source, self@.partition.title) == Some(s@),
                None => self@.partition.title is None,
            },
    {
        match self.title_byte_range() {
            Some(r) => Some(self.slice(r)),
            None => None,
        }
    }

    /// The title line as text.
    pub fn title_str(&self) -> (r: Option<Result<&str, core::str::Utf8Error>>)
        ensures
            match r {
                Some(t) => self@.partition.title matches Some(x) && reads_as(
                    t,
                    bytes::slice_of(self@.source, x),
                ),
                None => self@.partition.title is None,
            },
    {
        match self.title() {
            Some(s) => Some(text::read_utf8(s)),
            None => None,
        }
    }

    /// The tag line of a note.
    pub fn tags_prefix(&self) -> (r: Option<&[u8]>)
        ensures
            match r {
                Some(s) => self@.partition.kind == DocumentKind::Note && opt_slice(
                    self@.source,
                    self@.partition.tags,
                ) == Some(s@),
                None => self@.partition.kind != DocumentKind::Note || self@.partition.tags is None,
            },
    {
        if self.partition.kind != DocumentKind::Note {
            return None;
        }
        match self.tags_byte_range() {
            Some(r) => Some(self.slice(r)),
            None => None,
        }
    }

    /// The tag section of a task or bookmark.
    pub fn tag_section(&self) -> (r: Option<&[u8]>)
        ensures
            match r {
                Some(s) => self@.partition.kind != DocumentKind::Note && opt_slice(
                    self@.source,
                    self@.partition.tags,
                ) == Some(s@),
                None => self@.partition.kind == DocumentKind::Note || self@.partition.tags is None,
            },
    {
        if self.partition.kind == DocumentKind::Note {
            return None;
        }
        match self.tags_byte_range() {
            Some(r) => Some(self.slice(r)),
            None => None,
        }
    }

    /// The spans of the tags, without their `#`.
    pub fn tag_token_spans(&self) -> (r: Vec<ByteRange>)
        ensures
            bytes::spans(r@) == self@.tag_spans(),
    {
        proof {
            use_type_invariant(self);
        }
        tag_token_spans_in(self.source.as_slice(), self.partition.tags_range)
    }

    /// Every tag span lies inside the source.
    proof fn lemma_tag_spans(doc: DocumentView)
        requires
            doc.partition.tags matches Some(r) ==> bytes::span_within(r, doc.source.len() as int),
        ensures
            forall|k: int|
                0 <= k < doc.tag_spans().len() ==> bytes::span_within(
                    #[trigger] doc.tag_spans()[k],
                    doc.source.len() as int,
                ),
    {
        if let Some(r) = doc.partition.tags {
            let t = bytes::slice_of(doc.source, r);
            helpers::lemma_tag_tokens(t, 0);
            assert forall|k: int| 0 <= k < doc.tag_spans().len() implies bytes::span_within(
                #[trigger] doc.tag_spans()[k],
                doc.source.len() as int,
            ) by {
                assert(0 < helpers::tag_tokens(t, 0)[k].start);
            }
        }
    }

    /// The bytes of the given ranges.
    fn slices_at(&self, v: &Vec<ByteRange>) -> (r: Vec<&[u8]>)
        requires
            forall|k: int|
                0 <= k < v@.len() ==> bytes::span_within(
                    #[trigger] bytes::spans(v@)[k],
                    self@.source.len() as int,
                ),
        ensures
            slice_views(r@) == slices(self@.source, bytes::spans(v@)),
    {
        let ghost all = slices(self@.source, bytes::spans(v@));
        let mut out: Vec<&[u8]> = Vec::new();
        let mut i: usize = 0;
        while i < v.len()
            invariant
                i <= v.len(),
                forall|k: int|
                    0 <= k < v@.len() ==> bytes::span_within(
                        #[trigger] bytes::spans(v@)[k],
                        self@.source.len() as int,
                    ),
                all == slices(self@.source, bytes::spans(v@)),
                slice_views(out@) == all.take(i as int),
            decreases v.len() - i,
        {
            assert(bytes::spans(v@)[i as int] == v@[i as int]@);
            let s = self.slice(v[i]);
            let ghost before = out@;
            out.push(s);
            proof {
                assert(slice_views(out@) =~= slice_views(before).push(s@));
                assert(all.take(i + 1) =~= all.take(i as int).push(all[i as int]));
            }
            i += 1;
        }
        assert(all.take(all.len() as int) =~= all);
        out
    }

    /// The tags as bytes, in source order.
    pub fn tags(&self) -> (r: Vec<&[u8]>)
        ensures
            slice_views(r@) == slices(self@.source, self@.tag_spans()),
    {
        let v = self.tag_token_spans();
        proof {
            use_type_invariant(self);
            Self::lemma_tag_spans(self@);
        }
        self.slices_at(&v)
    }

    /// The tags as texts, in source order; a tag that is not UTF-8 is an error of its own.
    pub fn tags_str(&self) -> (r: Vec<Result<&str, core::str::Utf8Error>>)
        ensures
            r@.len() == self@.tag_spans().len(),
            forall|k: int|
                0 <= k < r@.len() ==> reads_as(
                    #[trigger] r@[k],
                    slices(self@.source, self@.tag_spans())[k],
                ),
    {
        let raw = self.tags();
        let ghost all = slices(self@.source, self@.tag_spans());
        let mut out: Vec<Result<&str, core::str::Utf8Error>> = Vec::new();
        let mut i: usize = 0;
        assert(slice_views(raw@).len() == all.len());
        while i < raw.len()
            invariant
                i <= raw.len(),
                slice_views(raw@) == all,
                raw@.len() == all.len(),
                out@.len() == i,
                forall|k: int| 0 <= k < i ==> reads_as(#[trigger] out@[k], all[k]),
            decreases raw.len() - i,
        {
            assert(slice_views(raw@)[i as int] == raw@[i as int]@);
            out.push(text::read_utf8(raw[i]));
            i += 1;
        }
        out
    }

    /// Where the body fragments are, in source order.
    pub fn body_ranges(&self) -> (r: Vec<ByteRange>)
        ensures
            bytes::spans(r@) == self@.partition.bodies,
            forall|k: int|
                0 <= k < r@.len() ==> bytes::span_within(
                    (#[trigger] r@[k])@,
                    self@.source.len() as int,
                ),
    {
        proof {
            use_type_invariant(self);
        }
        let mut out: Vec<ByteRange> = Vec::new();
        push_all(&mut out, &self.partition.body_ranges);
        assert(bytes::spans(out@) =~= self@.partition.bodies);
        assert forall|k: int| 0 <= k < out@.len() implies bytes::span_within(
            (#[trigger] out@[k])@,
            self@.source.len() as int,
        ) by {
            assert(bytes::spans(out@)[k] == out@[k]@);
            assert(self@.partition.bodies[k] == out@[k]@);
        }
        out
    }

    /// The body fragments, in source order.
    pub fn body(&self) -> (r: Vec<&[u8]>)
        ensures
            slice_views(r@) == slices(self@.source, self@.partition.bodies),
    {
        let v = self.body_ranges();
        assert forall|k: int| 0 <= k < v@.len() implies bytes::span_within(
            #[trigger] bytes::spans(v@)[k],
            self@.source.len() as int,
        ) by {
            assert(bytes::span_within(v@[k]@, self@.source.len() as int));
        }
        self.slices_at(&v)
    }

    /// The body fragments, one after the other.
    pub fn body_bytes(&self) -> (r: Vec<u8>)
        ensures
            r@ == self@.body(),
    {
        let v = self.body_ranges();
        let ghost all = self@.partition.bodies;
        let mut out: Vec<u8> = Vec::new();
        let mut i: usize = 0;
        assert(all.take(0) =~= Seq::<Span>::empty());
        assert(out@ =~= concat_ranges(self@.source, all.take(0)));
        while i < v.len()
            invariant
                i <= v.len(),
                bytes::spans(v@) == all,
                all == self@.partition.bodies,
                forall|k: int|
                    0 <= k < v@.len() ==> bytes::span_within(
                        (#[trigger] v@[k])@,
                        self@.source.len() as int,
                    ),
                out@ == concat_ranges(self@.source, all.take(i as int)),
            decreases v.len() - i,
        {
            proof {
                assert(all[i as int] == v@[i as int]@);
                assert(all.take(i + 1).drop_last() =~= all.take(i as int));
                assert(all.take(i + 1).last() == v@[i as int]@);
            }
            let ghost before = out@;
            let piece = self.slice(v[i]);
            out.extend_from_slice(piece);
            assert(out@ =~= before + piece@);
            i += 1;
        }
        assert(all.take(all.len() as int) =~= all);
        out
    }

    /// The URL line; bookmarks only.
    pub fn url(&self) -> (r: Option<&[u8]>)
        ensures
            match r {
                Some(s) => self@.partition.kind == DocumentKind::Bookmark && opt_slice(
                    self@.source,
                    self@.partition.url,
                ) == Some(s@),
                None => self@.partition.kind != DocumentKind::Bookmark || self@.partition.url
                    is None,
            },
    {
        proof {
            use_type_invariant(self);
        }
        if self.partition.kind != DocumentKind::Bookmark {
            return None;
        }
        match self.partition.url_range {
            Some(r) => Some(self.slice(r)),
            None => None,
        }
    }

    /// The URL line as text.
    pub fn url_str(&self) -> (r: Option<Result<&str, core::str::Utf8Error>>)
        ensures
            match r {
                Some(t) => self@.partition.kind == DocumentKind::Bookmark && (
                self@.partition.url matches Some(x) && reads_as(
                    t,
                    bytes::slice_of(self@.source, x),
                )),
                None => self@.partition.kind != DocumentKind::Bookmark || self@.partition.url
                    is None,
            },
    {
        match self.url() {
            Some(s) => Some(text::read_utf8(s)),
            None => None,
        }
    }
}

} // verus!
