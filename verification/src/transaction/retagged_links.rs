//! What is read back of a bookmark whose tags were edited.

use crate::bytes;
use crate::bytes::{Span, HASH, LF};
use crate::error::NbErrorView;
use crate::lines;
use crate::parser;
use crate::parser::assemble;
use crate::parser::classify;
use crate::parser::classify::BookmarkScan;
use crate::parser::document;
use crate::parser::document::{DocumentKind, DocumentView};
use crate::parser::helpers;
use crate::parser::link_laws;
use crate::parser::pieces;
use crate::parser::tag_sections;
use crate::tokenizer;
use crate::tokenizer::LineSpan;
use crate::transaction::content;
use crate::transaction::created;
use crate::transaction::created_bodies;
use crate::transaction::readback;
use crate::transaction::retagged;
use vstd::prelude::*;

verus! {

/// A tag section is one where no fence is open, and it leaves none open.
#[verifier::rlimit(40)]
#[verifier::spinoff_prover]
pub proof fn lemma_section_reads(scan: BookmarkScan, section: Seq<u8>, v: Seq<Seq<u8>>)
    requires
        section == readback::paragraph(helpers::reserved_heading("Tags"@)) + readback::hashed_line(
            v,
        ) + seq![LF],
        v.len() > 0,
        forall|k: int| 0 <= k < v.len() ==> readback::word_bytes(#[trigger] v[k]),
        scan.fence is None,
    ensures
        tag_sections::is_tag_section(scan, section),
        tag_sections::scan_after(scan, section) == scan,
        pieces::rows_of(section).len() == 3,
        pieces::rows_of(section).last().len() > 0,
        section.len() > 0,
        section[0] == HASH,
        section.last() == LF,
{
    let head = helpers::reserved_heading("Tags"@);
    let none = Seq::<u8>::empty();
    let line = readback::hashed_line(v);
    created_bodies::lemma_section_rows(section, v);
    created::lemma_section_classes(scan, v);
    let r = pieces::rows_of(section);
    assert(r[0] == head && r[1] == none && r[2] == line);
    assert(pieces::scan_over(scan, r, 0) == scan);
    assert(pieces::scan_over(scan, r, 1) == classify::bookmark_step(scan, head));
    assert(pieces::scan_over(scan, r, 2) == classify::bookmark_step(
        classify::bookmark_step(scan, head),
        none,
    ));
    let tn = tag_sections::tokens_behind(scan, section);
    assert(tn.len() == 3);
    assert(tn[0] == classify::bookmark_token(scan, head));
    assert(tn[1] == classify::bookmark_token(pieces::scan_over(scan, r, 1), none));
    assert(tn[2] == classify::bookmark_token(pieces::scan_over(scan, r, 2), line));
    created::lemma_section_steps(scan, v);
    assert(pieces::scan_over(scan, r, 3) == classify::bookmark_step(
        pieces::scan_over(scan, r, 2),
        line,
    ));
    assert(readback::word_bytes(v[0]));
    assert(line.len() > 0);
}

/// The tags of a tag section anywhere in a document.
pub proof fn lemma_section_tags(s: Seq<u8>, r: Span, section: Seq<u8>, v: Seq<Seq<u8>>)
    requires
        section == readback::paragraph(helpers::reserved_heading("Tags"@)) + readback::hashed_line(
            v,
        ) + seq![LF],
        v.len() > 0,
        forall|k: int| 0 <= k < v.len() ==> readback::word_bytes(#[trigger] v[k]),
        0 <= r.start <= r.end <= s.len(),
        bytes::slice_of(s, r) == section,
    ensures
        document::slices(s, helpers::tag_tokens_in(s, Some(r))) == v,
{
    created::lemma_section_tokens(section, v);
    let inner = helpers::tag_tokens(section, 0);
    let got = document::slices(s, helpers::tag_tokens_in(s, Some(r)));
    let own = document::slices(section, inner);
    assert forall|k: int| 0 <= k < v.len() implies got[k] == #[trigger] v[k] by {
        assert(own[k] == v[k]);
        assert(bytes::span_within(inner[k], section.len() as int));
        assert(section.len() == r.end - r.start);
        assert(got[k] =~= bytes::slice_of(s, r).subrange(inner[k].start, inner[k].end));
    }
    assert(got =~= v);
}

/// The bookmark that a tag edit leaves, behind its byte-order mark.
pub open spec fn edited_text(doc: DocumentView, section: Seq<u8>) -> Seq<u8> {
    let x = doc.source.skip(tokenizer::preamble_len(doc.source));
    match link_laws::link_tail(x).tags {
        Some(r) => x.take(r.start) + (section + x.skip(r.end)),
        None => lines::title_line(x).push(LF) + section,
    }
}

/// Where the tags of the edited text stand.
#[verifier::rlimit(40)]
#[verifier::spinoff_prover]
proof fn lemma_edited_text(doc: DocumentView, section: Seq<u8>, v: Seq<Seq<u8>>)
    requires
        parser::parsed_as(doc.source, DocumentKind::Bookmark) == Ok::<DocumentView, NbErrorView>(
            doc,
        ),
        section == readback::paragraph(helpers::reserved_heading("Tags"@)) + readback::hashed_line(
            v,
        ) + seq![LF],
        v.len() > 0,
        forall|k: int| 0 <= k < v.len() ==> readback::word_bytes(#[trigger] v[k]),
        doc.partition.tags is None ==> tag_sections::scan_behind(
            doc.source.skip(tokenizer::preamble_len(doc.source)),
        ).fence is None,
    ensures
        ({
            let z = edited_text(doc, section);
            let r = link_laws::link_tail(z).tags;
            &&& r is Some
            &&& 0 <= r->0.start <= r->0.end <= z.len()
            &&& bytes::slice_of(z, r->0) == section
        }),
{
    let s = doc.source;
    let x = s.skip(tokenizer::preamble_len(s));
    tag_sections::lemma_whole(s);
    let z = edited_text(doc, section);
    match link_laws::link_tail(x).tags {
        Some(r) => {
            let scan = tag_sections::scan_behind(x.take(r.start));
            let old = x.subrange(r.start, r.end);
            lemma_tag_scan(x);
            lemma_section_reads(scan, section, v);
            assert(tag_sections::stands_for(scan, old, section));
            tag_sections::lemma_tags_exchanged(x, section);
            let new = Span { start: r.start, end: r.start + section.len() };
            assert(bytes::slice_of(z, new) =~= section);
        },
        None => {
            assert(x.len() > 0) by {
                if x.len() == 0 {
                    assert(tokenizer::lines_from(x, 0) =~= Seq::<LineSpan>::empty());
                }
            }
            tag_sections::lemma_front_of_section(x);
            let fr = lines::title_line(x).push(LF);
            lemma_section_reads(tag_sections::scan_behind(fr), section, v);
            assert(fr.last() == LF);
            tag_sections::lemma_tags_appended(fr, section);
            let new = Span { start: fr.len() as int, end: (fr + section).len() as int };
            assert(bytes::slice_of(z, new) =~= section);
        },
    }
}

/// Before a tag section no fence is open, and it starts with its heading.
proof fn lemma_tag_scan(x: Seq<u8>)
    requires
        link_laws::link_tail(x).tags is Some,
    ensures
        ({
            let r = link_laws::link_tail(x).tags->0;
            let m = x.subrange(r.start, r.end);
            &&& tag_sections::scan_behind(x.take(r.start)).fence is None
            &&& pieces::rows_of(m).len() > 0
            &&& pieces::rows_of(m)[0] == helpers::reserved_heading("Tags"@)
        }),
{
    reveal(link_laws::link_tail);
    let l = tokenizer::lines_from(x, 0);
    let t = link_laws::tail_tokens(x);
    let rows = pieces::rows_of(x);
    let v = link_laws::all_sections(x, l, t);
    link_laws::lemma_same_tags(v, v);
    let i = assemble::canonical_tags(v);
    let (k, j) = tag_sections::lemma_section_place(x, i);
    tag_sections::lemma_cut(x, k, j);
    assert(rows.subrange(k, j)[0] == rows[k]);
    assert(rows[k] == l[k].content(x));
    assert(rows =~= rows.take(k) + rows.skip(k));
    pieces::lemma_scan_join(pieces::at_start(), rows.take(k), rows.skip(k), k);
    assert(t[k] == classify::bookmark_token(
        pieces::scan_over(pieces::at_start(), rows, k),
        rows[k],
    ));
}

/// The edited tags of a bookmark read back one by one. This leaves out tags that are not one
/// word each, an edit that leaves no tag, and a bookmark without a tag section that leaves a
/// code fence open, which would take in the new section.
#[verifier::rlimit(40)]
#[verifier::spinoff_prover]
pub proof fn law_edited_link_tags_read_back(
    doc: DocumentView,
    add: Seq<Seq<char>>,
    remove: Seq<Seq<char>>,
)
    requires
        parser::parsed_as(doc.source, DocumentKind::Bookmark) == Ok::<DocumentView, NbErrorView>(
            doc,
        ),
        ({
            let tags = content::tags_edited(content::document_tags(doc), add, remove);
            tags.len() > 0 && forall|k: int|
                0 <= k < tags.len() ==> retagged::clean(#[trigger] tags[k])
        }),
        doc.partition.tags is None ==> tag_sections::scan_behind(
            doc.source.skip(tokenizer::preamble_len(doc.source)),
        ).fence is None,
    ensures
        ({
            let tags = content::tags_edited(content::document_tags(doc), add, remove);
            let source = content::tag_edit(doc, add, remove);
            let after = parser::parsed_as(source, DocumentKind::Bookmark)->Ok_0;
            &&& parser::parsed_as(source, DocumentKind::Bookmark) is Ok
            &&& document::slices(source, after.tag_spans()) == retagged::tags_bytes(tags)
        }),
{
    let s = doc.source;
    let p = tokenizer::preamble_len(s);
    let x = s.skip(p);
    let tags = content::tags_edited(content::document_tags(doc), add, remove);
    let v = retagged::tags_bytes(tags);
    retagged::lemma_clean_line(tags);
    assert forall|k: int| 0 <= k < v.len() implies readback::word_bytes(#[trigger] v[k]) by {
        assert(retagged::clean(tags[k]));
    }
    retagged::lemma_clean_section(tags);
    let section = vstd::utf8::encode_utf8("## Tags\n\n"@ + content::hashed(tags) + "\n"@);
    tag_sections::lemma_whole(s);
    lemma_edited_text(doc, section, v);
    let z = edited_text(doc, section);
    let source = s.take(p) + z;
    assert(section[0] == HASH);
    assert(doc.partition.kind == DocumentKind::Bookmark);
    assert(source =~= content::tag_edit(doc, add, remove)) by {
        lemma_edit_is(doc, section);
    }
    lemma_preamble_stays(doc, section);
    assert(tokenizer::preamble_len(source) == p);
    assert(source.skip(p) =~= z);
    tag_sections::lemma_whole(source);
    let r = link_laws::link_tail(z).tags->0;
    lemma_has_content(z);
    let at = pieces::moved(r, p);
    assert(bytes::slice_of(source, at) =~= bytes::slice_of(z, r));
    lemma_section_tags(source, at, section, v);
}

/// A text with a tag section has content.
proof fn lemma_has_content(z: Seq<u8>)
    requires
        link_laws::link_tail(z).tags is Some,
    ensures
        assemble::next_content(link_laws::tail_tokens(z), 0) < link_laws::tail_tokens(z).len(),
{
    reveal(link_laws::link_tail);
    let l = tokenizer::lines_from(z, 0);
    let t = link_laws::tail_tokens(z);
    let v = link_laws::all_sections(z, l, t);
    link_laws::lemma_same_tags(v, v);
    let i = assemble::canonical_tags(v);
    let (k, j) = tag_sections::lemma_section_place(z, i);
    assemble::lemma_next_content(t, 0);
    if assemble::next_content(t, 0) > k {
        assert(t[k] is Blank);
    }
}

/// What a tag edit makes of a bookmark.
proof fn lemma_edit_is(doc: DocumentView, section: Seq<u8>)
    requires
        parser::parsed_as(doc.source, DocumentKind::Bookmark) == Ok::<DocumentView, NbErrorView>(
            doc,
        ),
    ensures
        ({
            let s = doc.source;
            let p = tokenizer::preamble_len(s);
            s.take(p) + edited_text(doc, section) == match doc.partition.tags {
                Some(r) => bytes::spliced(s, r.start, r.end, section),
                None => lines::title_line(s) + seq![LF] + section,
            }
        }),
{
    let s = doc.source;
    let p = tokenizer::preamble_len(s);
    let x = s.skip(p);
    tag_sections::lemma_whole(s);
    link_laws::lemma_link_within(x);
    let z = edited_text(doc, section);
    match link_laws::link_tail(x).tags {
        Some(r) => {
            let q = pieces::moved(r, p);
            assert(s.take(p) + z =~= bytes::spliced(s, q.start, q.end, section));
        },
        None => {
            assert(x.len() > 0) by {
                if x.len() == 0 {
                    assert(tokenizer::lines_from(x, 0) =~= Seq::<LineSpan>::empty());
                }
            }
            assert(x.last() == s.last());
            assert(s.take(p) + z =~= lines::title_line(s) + seq![LF] + section);
        },
    }
}

/// A tag edit leaves the byte-order mark, or its absence.
proof fn lemma_preamble_stays(doc: DocumentView, section: Seq<u8>)
    requires
        parser::parsed_as(doc.source, DocumentKind::Bookmark) == Ok::<DocumentView, NbErrorView>(
            doc,
        ),
        section.len() > 0,
        section[0] == HASH,
    ensures
        ({
            let s = doc.source;
            let p = tokenizer::preamble_len(s);
            tokenizer::preamble_len(s.take(p) + edited_text(doc, section)) == p
        }),
{
    let s = doc.source;
    let p = tokenizer::preamble_len(s);
    let x = s.skip(p);
    let z = edited_text(doc, section);
    let source = s.take(p) + z;
    tag_sections::lemma_whole(s);
    link_laws::lemma_link_within(x);
    if p == 3 {
        assert(source[0] == s[0] && source[1] == s[1] && source[2] == s[2]);
    } else {
        assert(source =~= z);
        assert(x =~= s);
        match link_laws::link_tail(x).tags {
            Some(r) => {
                let n = r.start;
                assert(z[n] == section[0]);
                if n >= 3 {
                    assert(z[0] == s[0] && z[1] == s[1] && z[2] == s[2]);
                }
            },
            None => {
                let e = lines::title_line(x);
                assert(forall|k: int| 0 <= k < x.len() ==> z[k] == #[trigger] s[k]);
                if x.len() < 3 {
                    assert(z[x.len() as int] == LF);
                }
            },
        }
    }
}

} // verus!
