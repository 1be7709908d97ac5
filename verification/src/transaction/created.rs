//! What is read back of a task or a bookmark that was created.

use crate::bytes;
use crate::bytes::{Span, BACKTICK, GREATER, HASH, LESS, LF, SPACE, TILDE};
use crate::parser;
use crate::parser::assemble;
use crate::parser::assemble::SectionView;
use crate::parser::classify;
use crate::parser::document;
use crate::parser::document::{DocumentKind, TodoState};
use crate::parser::helpers;
use crate::parser::types::Token;
use crate::text;
use crate::tokenizer;
use crate::tokenizer::LineSpan;
use crate::transaction::content;
use crate::transaction::marks;
use crate::transaction::readback;
use vstd::prelude::*;

verus! {

/// The title line of a new task, without its line feed.
pub open spec fn task_heading(title: Seq<char>) -> Seq<char> {
    if title.contains('[') {
        "# "@ + title
    } else {
        "# [ ] "@ + title
    }
}

/// What follows the title paragraph of a new task, up to its tag section.
pub open spec fn task_middle(
    description: Option<Seq<char>>,
    tasks: Seq<Seq<char>>,
) -> Seq<char> {
    (if tasks.len() > 0 {
        "## Tasks\n\n"@ + content::tasks_text(tasks) + "\n"@
    } else {
        ""@
    }) + (match description {
        Some(d) => "## Description\n\n"@ + content::ended(d) + "\n"@,
        None => ""@,
    })
}

/// The bytes of a text that ends with a line feed.
pub proof fn lemma_ended_bytes(s: Seq<char>)
    ensures
        vstd::utf8::encode_utf8(s + "\n"@) == vstd::utf8::encode_utf8(s).push(LF),
{
    text::lemma_encode_concat(s, "\n"@);
    reveal_strlit("\n");
    vstd::utf8::is_ascii_chars_encode_utf8("\n"@);
    assert(vstd::utf8::encode_utf8("\n"@) =~= seq![LF]);
    assert(vstd::utf8::encode_utf8(s) + seq![LF] =~= vstd::utf8::encode_utf8(s).push(LF));
}

/// What stands between the title and the tag section of a new task ends with a line feed.
proof fn lemma_middle_bytes(description: Option<Seq<char>>, tasks: Seq<Seq<char>>)
    ensures
        ({
            let b = vstd::utf8::encode_utf8(task_middle(description, tasks));
            b.len() > 0 ==> b.last() == LF
        }),
{
    let x = if tasks.len() > 0 {
        "## Tasks\n\n"@ + content::tasks_text(tasks) + "\n"@
    } else {
        ""@
    };
    let y = match description {
        Some(d) => "## Description\n\n"@ + content::ended(d) + "\n"@,
        None => ""@,
    };
    reveal_strlit("");
    assert(vstd::utf8::encode_utf8(""@) =~= Seq::<u8>::empty());
    text::lemma_encode_concat(x, y);
    if tasks.len() > 0 {
        lemma_ended_bytes("## Tasks\n\n"@ + content::tasks_text(tasks));
    }
    if let Some(d) = description {
        lemma_ended_bytes("## Description\n\n"@ + content::ended(d));
    }
    let a = vstd::utf8::encode_utf8(x);
    let b = vstd::utf8::encode_utf8(y);
    if b.len() > 0 {
        assert((a + b).last() == b.last());
    } else {
        assert(a + b =~= a);
    }
}

/// The bytes of a new task: its title paragraph, what follows, and its tag section.
pub proof fn lemma_task_bytes(
    title: Seq<char>,
    description: Option<Seq<char>>,
    tasks: Seq<Seq<char>>,
    tags: Seq<Seq<char>>,
)
    ensures
        vstd::utf8::encode_utf8(content::todo_text(title, description, tasks, tags))
            == readback::paragraph(vstd::utf8::encode_utf8(task_heading(title)))
            + vstd::utf8::encode_utf8(task_middle(description, tasks)) + vstd::utf8::encode_utf8(
            content::tag_section_text(tags),
        ),
{
    let head = task_heading(title) + "\n\n"@;
    let middle = task_middle(description, tasks);
    let section = content::tag_section_text(tags);
    assert(content::todo_text(title, description, tasks, tags) =~= head + middle + section);
    text::lemma_encode_concat(head + middle, section);
    text::lemma_encode_concat(head, middle);
    readback::lemma_paragraph_bytes(task_heading(title));
}

/// The bytes of the heading of a tag section.
pub proof fn lemma_tag_paragraph()
    ensures
        vstd::utf8::encode_utf8("## Tags\n\n"@) == readback::paragraph(
            helpers::reserved_heading("Tags"@),
        ),
{
    reveal_strlit("## Tags\n\n");
    reveal_strlit("Tags");
    vstd::utf8::is_ascii_chars_encode_utf8("## Tags\n\n"@);
    vstd::utf8::is_ascii_chars_encode_utf8("Tags"@);
    assert(vstd::utf8::encode_utf8("## Tags\n\n"@) =~= readback::paragraph(
        helpers::reserved_heading("Tags"@),
    ));
}

/// The bytes of a tag section of plain tags.
pub proof fn lemma_section_bytes(tags: Seq<Seq<char>>)
    requires
        tags.len() > 0,
        forall|k: int| 0 <= k < tags.len() ==> readback::plain(#[trigger] tags[k]),
    ensures
        vstd::utf8::encode_utf8(content::tag_section_text(tags)) == readback::paragraph(
            helpers::reserved_heading("Tags"@),
        ) + readback::hashed_line(readback::words(tags)) + seq![LF],
{
    readback::lemma_tags_bytes(tags);
    lemma_ended_bytes("## Tags\n\n"@ + content::tags_text(tags));
    text::lemma_encode_concat("## Tags\n\n"@, content::tags_text(tags));
    lemma_tag_paragraph();
    assert(vstd::utf8::encode_utf8(content::tag_section_text(tags)) =~= readback::paragraph(
        helpers::reserved_heading("Tags"@),
    ) + readback::hashed_line(readback::words(tags)) + seq![LF]);
}

/// The heading of the tag section is recognised.
#[verifier::rlimit(40)]
#[verifier::spinoff_prover]
pub proof fn lemma_tag_heading()
    ensures
        assemble::is_tag_boundary(classify::todo_token(helpers::reserved_heading("Tags"@))),
        readback::unbroken(helpers::reserved_heading("Tags"@)),
        helpers::reserved_heading("Tags"@).len() == 7,
{
    let line = helpers::reserved_heading("Tags"@);
    reveal_strlit("Tags");
    vstd::utf8::is_ascii_chars_encode_utf8("Tags"@);
    let b = vstd::utf8::encode_utf8("Tags"@);
    assert(b.len() == 4);
    assert(b[0] == 0x54 && b[1] == 0x61 && b[2] == 0x67 && b[3] == 0x73);
    assert(line[0] == HASH && line[1] == HASH && line[2] == SPACE && line[3] == 0x54 && line[4]
        == 0x61 && line[5] == 0x67 && line[6] == 0x73);
    assert(!helpers::blank(line)) by {
        assert(!bytes::is_space_or_tab(line[0]));
    }
    bytes::lemma_find_from_is(line, helpers::not_space(), 0, 0);
    bytes::lemma_find_from_is(line, helpers::not_hash(), 0, 2);
    assert(helpers::heading_level(line) == Some(2u8));
    assert(helpers::heading_text_start(line, 2) == 3);
    assert(!helpers::blanks()(line[6]));
    assert(!helpers::hashes()(line[6]));
    assert(helpers::heading_text_end(line, 3) == 7);
    assert(helpers::heading_text_bytes(line, 2) =~= b);
    vstd::utf8::encode_utf8_valid_utf8("Tags"@);
    vstd::utf8::encode_utf8_decode_utf8("Tags"@);
}

/// The title line of a new task stays on one line.
pub proof fn lemma_heading_line(title: Seq<char>)
    requires
        readback::on_one_line(title),
    ensures
        ({
            let line = vstd::utf8::encode_utf8(task_heading(title));
            line.len() > 0 && line[0] == HASH && readback::unbroken(line)
        }),
{
    let all = task_heading(title);
    reveal_strlit("# ");
    reveal_strlit("# [ ] ");
    let n = all.len() - title.len();
    assert(all.skip(n) =~= title);
    assert(readback::on_one_line(all)) by {
        if all.contains('\n') {
            let k = choose|k: int| 0 <= k < all.len() && all[k] == '\n';
            assert(title[k - n] == '\n');
        }
        if all.contains('\r') {
            let k = choose|k: int| 0 <= k < all.len() && all[k] == '\r';
            assert(title[k - n] == '\r');
        }
    }
    readback::lemma_one_line_bytes(all);
    let head = all.take(1);
    let tail = all.skip(1);
    assert(all =~= head + tail);
    text::lemma_encode_concat(head, tail);
    assert(head =~= seq!['#']);
    vstd::utf8::is_ascii_chars_encode_utf8(head);
}

/// The title line of a new task without a bracket in its title is open.
proof fn lemma_open_line(title: Seq<char>)
    requires
        !title.contains('['),
    ensures
        helpers::title_state(vstd::utf8::encode_utf8(task_heading(title)).push(LF)) == Some(
            TodoState::Open,
        ),
{
    let all = task_heading(title);
    reveal_strlit("# [ ] ");
    assert(content::boxed(all, 0, ' '));
    marks::lemma_boxed_text(all, 0, ' ');
    let line = vstd::utf8::encode_utf8(all);
    assert(marks::boxed_bytes(line.push(LF), 0, marks::mark_byte(' ')));
    marks::lemma_title_state(line.push(LF), 0, ' ');
}

/// A line of plain tags is no heading.
pub proof fn lemma_tags_no_heading(v: Seq<Seq<u8>>)
    requires
        v.len() > 0,
        forall|k: int| 0 <= k < v.len() ==> readback::word_bytes(#[trigger] v[k]),
    ensures
        classify::todo_token(readback::hashed_line(v)) is Body,
{
    let line = readback::hashed_line(v);
    let w = v[0];
    assert(readback::word_bytes(w));
    assert(line[0] == HASH && line[1] == w[0]);
    assert(!helpers::blank(line)) by {
        assert(!bytes::is_space_or_tab(line[0]));
    }
    bytes::lemma_find_from_is(line, helpers::not_space(), 0, 0);
    bytes::lemma_find_from_is(line, helpers::not_hash(), 0, 1);
}

/// The lines of a tag section at the end of a source.
pub proof fn lemma_section_lines(s: Seq<u8>, a: int, v: Seq<Seq<u8>>)
    requires
        0 <= a <= s.len(),
        s.skip(a) == readback::paragraph(helpers::reserved_heading("Tags"@))
            + readback::hashed_line(v) + seq![LF],
        v.len() > 0,
        forall|k: int| 0 <= k < v.len() ==> readback::word_bytes(#[trigger] v[k]),
    ensures
        ({
            let l = tokenizer::lines_from(s, a);
            &&& l.len() == 3
            &&& l[0].start == a
            &&& l[0].content(s) == helpers::reserved_heading("Tags"@)
            &&& l[1].content(s) == Seq::<u8>::empty()
            &&& l[2].content(s) == readback::hashed_line(v)
        }),
{
    let head = helpers::reserved_heading("Tags"@);
    let line = readback::hashed_line(v);
    let all = readback::paragraph(head) + line + seq![LF];
    let rest = s.skip(a);
    lemma_tag_heading();
    readback::lemma_hashed_unbroken(v);
    assert(rest.len() == s.len() - a);
    assert forall|k: int| 0 <= k < all.len() implies s[a + k] == #[trigger] all[k] by {
        assert(rest[k] == all[k]);
    }
    assert(s.subrange(a, a + 9) =~= readback::paragraph(head)) by {
        assert forall|k: int| 0 <= k < 9 implies s[a + k] == readback::paragraph(head)[k] by {
            assert(s[a + k] == all[k]);
        }
    }
    readback::lemma_paragraph_lines(s, a, head);
    let e = s.len() - 1;
    assert(e == a + 9 + line.len());
    assert forall|k: int| a + 9 <= k < e implies !bytes::is_line_break(#[trigger] s[k]) by {
        assert(s[a + (k - a)] == all[k - a]);
        assert(all[k - a] == line[k - a - 9]);
    }
    assert(s[a + (e - a)] == all[e - a]);
    crate::parser::readback::lemma_line_here(s, a + 9, e);
    assert(tokenizer::lines_from(s, e + 1) =~= Seq::<LineSpan>::empty());
    let last = LineSpan { start: a + 9, content_end: e, end: e + 1 };
    assert(last.content(s) =~= line) by {
        assert forall|k: int| 0 <= k < line.len() implies s[a + 9 + k] == line[k] by {
            assert(s[a + (9 + k)] == all[9 + k]);
        }
    }
}

/// The tags of a tag section.
pub proof fn lemma_section_tokens(section: Seq<u8>, v: Seq<Seq<u8>>)
    requires
        section == readback::paragraph(helpers::reserved_heading("Tags"@))
            + readback::hashed_line(v) + seq![LF],
        v.len() > 0,
        forall|k: int| 0 <= k < v.len() ==> readback::word_bytes(#[trigger] v[k]),
    ensures
        document::slices(section, helpers::tag_tokens(section, 0)) == v,
        forall|k: int|
            0 <= k < helpers::tag_tokens(section, 0).len() ==> bytes::span_within(
                #[trigger] helpers::tag_tokens(section, 0)[k],
                section.len() as int,
            ),
{
    let t = section;
    lemma_tag_heading();
    reveal_strlit("Tags");
    vstd::utf8::is_ascii_chars_encode_utf8("Tags"@);
    assert(t[0] == HASH && t[1] == HASH && t[2] == SPACE && t[3] == 0x54 && t[4] == 0x61 && t[5]
        == 0x67 && t[6] == 0x73 && t[7] == LF && t[8] == LF);
    bytes::lemma_find_from_is(t, helpers::tag_end(), 1, 1);
    bytes::lemma_find_from_is(t, helpers::tag_end(), 2, 2);
    assert(helpers::tag_tokens(t, 0) == helpers::tag_tokens(t, 1));
    assert(helpers::tag_tokens(t, 1) == helpers::tag_tokens(t, 2));
    assert(helpers::tag_tokens(t, 2) == helpers::tag_tokens(t, 3));
    assert(helpers::tag_tokens(t, 3) == helpers::tag_tokens(t, 4));
    assert(helpers::tag_tokens(t, 4) == helpers::tag_tokens(t, 5));
    assert(helpers::tag_tokens(t, 5) == helpers::tag_tokens(t, 6));
    assert(helpers::tag_tokens(t, 6) == helpers::tag_tokens(t, 7));
    assert(helpers::tag_tokens(t, 7) == helpers::tag_tokens(t, 8));
    assert(helpers::tag_tokens(t, 8) == helpers::tag_tokens(t, 9));
    assert(t.skip(9) =~= readback::hashed_line(v) + seq![LF]);
    readback::lemma_tokens_from(t, 9, v);
    assert(document::slices(t, helpers::tag_tokens(t, 0)) =~= v);
}

/// The tags of a document whose tag range is a tag section at its end.
pub proof fn lemma_tags_of_section(s: Seq<u8>, r: Span, section: Seq<u8>, v: Seq<Seq<u8>>)
    requires
        section == readback::paragraph(helpers::reserved_heading("Tags"@))
            + readback::hashed_line(v) + seq![LF],
        v.len() > 0,
        forall|k: int| 0 <= k < v.len() ==> readback::word_bytes(#[trigger] v[k]),
        0 <= r.start <= r.end,
        r.end == s.len(),
        s.skip(r.start) == section,
    ensures
        document::slices(s, helpers::tag_tokens_in(s, Some(r))) == v,
{
    lemma_section_tokens(section, v);
    assert(bytes::slice_of(s, r) =~= section);
    let inner = helpers::tag_tokens(section, 0);
    let got = document::slices(s, helpers::tag_tokens_in(s, Some(r)));
    let own = document::slices(section, inner);
    assert forall|k: int| 0 <= k < v.len() implies got[k] == #[trigger] v[k] by {
        assert(own[k] == v[k]);
        assert(bytes::span_within(inner[k], section.len() as int));
        assert(section.len() == s.len() - r.start);
        assert(got[k] =~= s.skip(r.start).subrange(inner[k].start, inner[k].end));
    }
    assert(got =~= v);
}

/// The title line of a task that starts with a paragraph.
proof fn lemma_task_title(s: Seq<u8>, line: Seq<u8>)
    requires
        line.len() + 2 <= s.len(),
        s.take(line.len() as int + 2) == readback::paragraph(line),
        readback::unbroken(line),
        line.len() > 0,
        line[0] == HASH,
    ensures
        tokenizer::preamble_len(s) == 0,
        parser::partition_of(s, DocumentKind::Todo) is Some,
        document::opt_slice(s, parser::partition_of(s, DocumentKind::Todo)->0.title) == Some(
            line.push(LF),
        ),
{
    let n = line.len() as int;
    let part = s.take(n + 2);
    assert(s[0] == part[0]);
    assert(s.subrange(0, n + 2) =~= part);
    readback::lemma_paragraph_lines(s, 0, line);
    let l = tokenizer::source_lines(s);
    let t = parser::tokens_of(s, DocumentKind::Todo);
    assert(l[0] == (LineSpan { start: 0, content_end: n, end: n + 1 }));
    assert(t[0] == classify::todo_token(line));
    assert(!helpers::blank(line)) by {
        assert(!bytes::is_space_or_tab(line[0]));
    }
    assert(assemble::has_content()(t[0]));
    bytes::lemma_find_from_is(t, assemble::has_content(), 0, 0);
    assert(bytes::slice_of(s, l[0].span()) =~= line.push(LF)) by {
        assert forall|k: int| 0 <= k < n + 1 implies s[k] == line.push(LF)[k] by {
            assert(s[k] == part[k]);
        }
    }
}

/// The tags of a task that ends with a tag section, behind something visible.
#[verifier::rlimit(40)]
#[verifier::spinoff_prover]
pub proof fn lemma_task_tags(front: Seq<u8>, section: Seq<u8>, v: Seq<Seq<u8>>, shown: int)
    requires
        section == readback::paragraph(helpers::reserved_heading("Tags"@))
            + readback::hashed_line(v) + seq![LF],
        v.len() > 0,
        forall|k: int| 0 <= k < v.len() ==> readback::word_bytes(#[trigger] v[k]),
        front.len() > 0,
        bytes::is_line_break(front.last()),
        tokenizer::preamble_len(front + section) <= shown < front.len(),
        assemble::visible(front[shown]),
    ensures
        parser::partition_of(front + section, DocumentKind::Todo) is Some,
        parser::partition_of(front + section, DocumentKind::Todo)->0.tags == Some(
            Span { start: front.len() as int, end: (front + section).len() as int },
        ),
{
    let s = front + section;
    let a = front.len() as int;
    let p = tokenizer::preamble_len(s);
    assert(section[0] == HASH);
    crate::parser::readback::lemma_lines_join(front, section, p);
    assert(s.skip(a) =~= section);
    lemma_section_lines(s, a, v);
    lemma_tag_heading();
    lemma_tags_no_heading(v);
    let first = tokenizer::lines_from(front, p);
    let more = tokenizer::lines_from(s, a);
    let l = tokenizer::source_lines(s);
    assert(l == first + more);
    let t = parser::tokens_of(s, DocumentKind::Todo);
    let n = first.len() as int;
    assert(t.len() == n + 3);
    assert(l[n] == more[0] && l[n + 1] == more[1] && l[n + 2] == more[2]);
    assert(t[n] == classify::todo_token(helpers::reserved_heading("Tags"@)));
    assert(t[n + 1] is Blank);
    assert(t[n + 2] is Body);
    assert(assemble::last_heading(t, n + 1) == n);
    assert(assemble::last_heading(t, n + 2) == n);
    assert(assemble::last_heading(t, n + 3) == n);
    let title = assemble::lemma_visible_line(front, p, shown);
    tokenizer::lemma_lines_from(front, p);
    assert(tokenizer::line_ok(front, first[title]));
    assert(l[title] == first[title]);
    assert(l[title].content(s) =~= first[title].content(front));
    assert(t[title] !is Blank);
    assemble::lemma_next_content(t, 0);
    if assemble::next_content(t, 0) > title {
        assert(t[title] is Blank);
    }
}

/// A new task reads back as it was made: its title line, open unless the title brings its own
/// checkbox, and its tags one by one, without their `#`. This leaves out a title of several
/// lines and tags that are not one word each.
#[verifier::rlimit(40)]
#[verifier::spinoff_prover]
pub proof fn law_new_task_reads_back(
    title: Seq<char>,
    description: Option<Seq<char>>,
    tasks: Seq<Seq<char>>,
    tags: Seq<Seq<char>>,
)
    requires
        readback::on_one_line(title),
        forall|k: int| 0 <= k < tags.len() ==> readback::plain(#[trigger] tags[k]),
    ensures
        ({
            let s = vstd::utf8::encode_utf8(content::todo_text(title, description, tasks, tags));
            let doc = parser::parsed_as(s, DocumentKind::Todo)->Ok_0;
            &&& parser::parsed_as(s, DocumentKind::Todo) is Ok
            &&& document::opt_slice(s, doc.partition.title) == Some(
                vstd::utf8::encode_utf8(task_heading(title)).push(LF),
            )
            &&& !title.contains('[') ==> doc.todo_state() == Some(TodoState::Open)
            &&& tags.len() > 0 ==> document::slices(s, doc.tag_spans()) == readback::words(tags)
        }),
{
    let s = vstd::utf8::encode_utf8(content::todo_text(title, description, tasks, tags));
    let line = vstd::utf8::encode_utf8(task_heading(title));
    let middle = vstd::utf8::encode_utf8(task_middle(description, tasks));
    let section = vstd::utf8::encode_utf8(content::tag_section_text(tags));
    lemma_task_bytes(title, description, tasks, tags);
    lemma_middle_bytes(description, tasks);
    lemma_heading_line(title);
    let front = readback::paragraph(line) + middle;
    assert(s.take(line.len() as int + 2) =~= readback::paragraph(line));
    lemma_task_title(s, line);
    let doc = parser::parsed_as(s, DocumentKind::Todo)->Ok_0;
    if !title.contains('[') {
        lemma_open_line(title);
    }
    if tags.len() > 0 {
        let v = readback::words(tags);
        readback::lemma_tags_bytes(tags);
        assert forall|k: int| 0 <= k < v.len() implies readback::word_bytes(#[trigger] v[k]) by {
            assert(readback::plain(tags[k]));
        }
        lemma_section_bytes(tags);
        assert(middle.len() == 0 ==> front =~= readback::paragraph(line));
        assert(front[0] == HASH);
        lemma_task_tags(front, section, v, 0);
        assert(s.skip(front.len() as int) =~= section);
        lemma_tags_of_section(s, doc.partition.tags->0, section, v);
    }
}

/// The URL line of a new bookmark, without its line feed.
pub open spec fn link_line(url: Seq<char>) -> Seq<char> {
    "<"@ + url + ">"@
}

/// A URL that can stand between `<` and `>`.
pub open spec fn linkable(url: Seq<char>) -> bool {
    url.len() > 0 && !url.contains('>') && readback::on_one_line(url)
}

/// The comment section of a new bookmark.
pub open spec fn comment_text(comment: Option<Seq<char>>) -> Seq<char> {
    match comment {
        Some(c) => "## Content\n\n"@ + content::ended(c) + "\n"@,
        None => ""@,
    }
}

/// The bytes of a new bookmark up to its tag section.
pub open spec fn bookmark_front(
    url: Seq<char>,
    title: Option<Seq<char>>,
    comment: Option<Seq<char>>,
) -> Seq<u8> {
    readback::title_bytes(title) + readback::paragraph(vstd::utf8::encode_utf8(link_line(url)))
        + vstd::utf8::encode_utf8(comment_text(comment))
}

/// The bytes of a new bookmark: what stands before its tag section, and that section.
pub proof fn lemma_bookmark_bytes(
    url: Seq<char>,
    title: Option<Seq<char>>,
    tags: Seq<Seq<char>>,
    comment: Option<Seq<char>>,
)
    ensures
        vstd::utf8::encode_utf8(content::bookmark_text(url, title, tags, comment))
            == bookmark_front(url, title, comment) + vstd::utf8::encode_utf8(
            content::tag_section_text(tags),
        ),
        bookmark_front(url, title, comment).last() == LF,
{
    let head = match title {
        Some(t) => "# "@ + t + "\n\n"@,
        None => ""@,
    };
    let link = link_line(url) + "\n\n"@;
    let about = comment_text(comment);
    let section = content::tag_section_text(tags);
    reveal_strlit(">\n\n");
    reveal_strlit(">");
    reveal_strlit("\n\n");
    assert("<"@ + url + ">\n\n"@ =~= link);
    assert(content::bookmark_text(url, title, tags, comment) =~= head + link + about + section);
    text::lemma_encode_concat(head + link + about, section);
    text::lemma_encode_concat(head + link, about);
    text::lemma_encode_concat(head, link);
    readback::lemma_paragraph_bytes(link_line(url));
    reveal_strlit("");
    assert(vstd::utf8::encode_utf8(""@) =~= Seq::<u8>::empty());
    if let Some(t) = title {
        readback::lemma_paragraph_bytes("# "@ + t);
    }
    let b = vstd::utf8::encode_utf8(about);
    let front = bookmark_front(url, title, comment);
    if let Some(c) = comment {
        lemma_ended_bytes("## Content\n\n"@ + content::ended(c));
        assert(front.last() == b.last());
    } else {
        assert(front =~= readback::title_bytes(title) + readback::paragraph(
            vstd::utf8::encode_utf8(link_line(url)),
        ));
    }
}

/// The URL line of a new bookmark is recognised as one.
pub proof fn lemma_link_line(url: Seq<char>)
    requires
        linkable(url),
    ensures
        ({
            let line = vstd::utf8::encode_utf8(link_line(url));
            &&& line.len() > 0
            &&& line[0] == LESS
            &&& readback::unbroken(line)
            &&& helpers::url_line(line)
        }),
{
    let line = vstd::utf8::encode_utf8(link_line(url));
    let inner = vstd::utf8::encode_utf8(url);
    reveal_strlit("<");
    reveal_strlit(">");
    text::lemma_encode_concat("<"@ + url, ">"@);
    text::lemma_encode_concat("<"@, url);
    vstd::utf8::is_ascii_chars_encode_utf8("<"@);
    vstd::utf8::is_ascii_chars_encode_utf8(">"@);
    assert(vstd::utf8::encode_utf8("<"@) =~= seq![LESS]);
    assert(vstd::utf8::encode_utf8(">"@) =~= seq![GREATER]);
    assert(line == seq![LESS] + inner + seq![GREATER]);
    vstd::utf8::encode_utf8_first_scalar(url);
    assert(inner.len() > 0);
    text::lemma_encode_without(url, '>');
    readback::lemma_one_line_bytes(url);
    let e = line.len() - 1;
    assert forall|k: int| 0 <= k < e implies !helpers::closes()(#[trigger] line[k]) by {
        if k > 0 {
            assert(line[k] == inner[k - 1]);
            assert(inner.contains(inner[k - 1]));
        }
    }
    bytes::lemma_find_from_is(line, helpers::closes(), 0, e);
    assert forall|k: int| 0 <= k < line.len() implies !bytes::is_line_break(
        #[trigger] line[k],
    ) by {
        if 0 < k < e {
            assert(line[k] == inner[k - 1]);
        }
    }
}

/// A line that starts with neither a blank nor a fence is read without regard to fences.
pub proof fn lemma_no_fence(line: Seq<u8>)
    requires
        line.len() > 0,
        line[0] == HASH || line[0] == LESS,
    ensures
        classify::fence_mark(line) is None,
        !helpers::blank(line),
        line[0] == HASH ==> !helpers::url_line(line),
{
    bytes::lemma_find_from_is(line, helpers::not_space(), 0, 0);
    assert(line.skip(0) =~= line);
    assert(!bytes::is_space_or_tab(line[0]));
    let rest = helpers::without_leading_spaces(line);
    if (seq![BACKTICK, BACKTICK, BACKTICK]).is_prefix_of(rest) {
        assert(rest.subrange(0, 3)[0] == BACKTICK);
    }
    if (seq![TILDE, TILDE, TILDE]).is_prefix_of(rest) {
        assert(rest.subrange(0, 3)[0] == TILDE);
    }
}

/// A heading of level one opens a bookmark with a title.
pub proof fn lemma_title_step(line: Seq<u8>)
    requires
        line.len() > 1,
        line[0] == HASH,
        line[1] == SPACE,
    ensures
        ({
            let scan = classify::BookmarkScan { fence: None, in_body: false };
            &&& assemble::is_title(classify::bookmark_token(scan, line))
            &&& classify::bookmark_step(scan, line).fence is None
        }),
{
    lemma_no_fence(line);
    bytes::lemma_find_from_is(line, helpers::not_space(), 0, 0);
    bytes::lemma_find_from_is(line, helpers::not_hash(), 0, 1);
    assert(helpers::heading_level(line) == Some(1u8));
}

/// The first lines of a bookmark with a title.
#[verifier::rlimit(40)]
#[verifier::spinoff_prover]
proof fn lemma_titled_tokens(s: Seq<u8>, line: Seq<u8>, link: Seq<u8>, rest: Seq<u8>)
    requires
        s == readback::paragraph(line) + readback::paragraph(link) + rest,
        readback::unbroken(line),
        line.len() > 1,
        line[0] == HASH,
        line[1] == SPACE,
        readback::unbroken(link),
        link.len() > 0,
        link[0] == LESS,
        helpers::url_line(link),
    ensures
        tokenizer::preamble_len(s) == 0,
        ({
            let l = tokenizer::source_lines(s);
            let t = parser::tokens_of(s, DocumentKind::Bookmark);
            &&& l.len() >= 3
            &&& t.len() == l.len()
            &&& bytes::slice_of(s, l[0].span()) == line.push(LF)
            &&& bytes::slice_of(s, l[2].span()) == link.push(LF)
            &&& assemble::is_title(t[0])
            &&& t[1] is Blank
            &&& t[2] is Url
        }),
{
    let l = tokenizer::source_lines(s);
    let t = parser::tokens_of(s, DocumentKind::Bookmark);
    let n = line.len() as int;
    let m = n + 2;
    let e = m + link.len();
    assert(s[0] == HASH);
    assert(s.subrange(0, n + 2) =~= readback::paragraph(line));
    assert(s.subrange(m, e + 2) =~= readback::paragraph(link));
    readback::lemma_paragraph_lines(s, 0, line);
    readback::lemma_paragraph_lines(s, m, link);
    assert(l[0] == (LineSpan { start: 0, content_end: n, end: n + 1 }));
    assert(l[1] == (LineSpan { start: n + 1, content_end: n + 1, end: n + 2 }));
    assert(l[2] == (LineSpan { start: m, content_end: e, end: e + 1 }));
    lemma_no_fence(link);
    lemma_title_step(line);
    lemma_blank_no_fence();
    let none = classify::BookmarkScan { fence: None, in_body: false };
    assert(classify::bookmark_scan(s, l, 0) == none);
    assert(classify::bookmark_scan(s, l, 1) == classify::bookmark_step(none, line));
    assert(classify::bookmark_scan(s, l, 2).fence is None);
    assert(bytes::slice_of(s, l[0].span()) =~= line.push(LF));
    assert(bytes::slice_of(s, l[2].span()) =~= link.push(LF));
}

/// The first line of a bookmark without a title.
proof fn lemma_linked_tokens(s: Seq<u8>, link: Seq<u8>, rest: Seq<u8>)
    requires
        s == readback::paragraph(link) + rest,
        readback::unbroken(link),
        link.len() > 0,
        link[0] == LESS,
        helpers::url_line(link),
    ensures
        tokenizer::preamble_len(s) == 0,
        ({
            let l = tokenizer::source_lines(s);
            let t = parser::tokens_of(s, DocumentKind::Bookmark);
            &&& l.len() >= 1
            &&& t.len() == l.len()
            &&& bytes::slice_of(s, l[0].span()) == link.push(LF)
            &&& t[0] is Url
        }),
{
    let l = tokenizer::source_lines(s);
    let e = link.len() as int;
    assert(s[0] == LESS);
    assert(s.subrange(0, e + 2) =~= readback::paragraph(link));
    readback::lemma_paragraph_lines(s, 0, link);
    assert(l[0] == (LineSpan { start: 0, content_end: e, end: e + 1 }));
    lemma_no_fence(link);
    assert(classify::bookmark_scan(s, l, 0).fence is None);
    assert(bytes::slice_of(s, l[0].span()) =~= link.push(LF));
}

/// The title and the URL line of a bookmark with such first lines.
proof fn lemma_bookmark_head(s: Seq<u8>)
    ensures
        ({
            let l = tokenizer::source_lines(s);
            let t = parser::tokens_of(s, DocumentKind::Bookmark);
            let p = parser::partition_of(s, DocumentKind::Bookmark);
            &&& t.len() >= 3 && assemble::is_title(t[0]) && t[1] is Blank && t[2] is Url
                ==> p is Some && p->0.title == Some(l[0].span()) && p->0.url == Some(l[2].span())
            &&& t.len() >= 1 && t[0] is Url ==> p is Some && p->0.title is None && p->0.url
                == Some(l[0].span())
        }),
{
    let t = parser::tokens_of(s, DocumentKind::Bookmark);
    let full = assemble::has_content();
    if t.len() >= 3 && assemble::is_title(t[0]) && t[1] is Blank && t[2] is Url {
        assert(full(t[0]) && !full(t[1]) && full(t[2]));
        bytes::lemma_find_from_is(t, full, 0, 0);
        bytes::lemma_find_from_is(t, full, 1, 2);
    }
    if t.len() >= 1 && t[0] is Url {
        assert(full(t[0]));
        bytes::lemma_find_from_is(t, full, 0, 0);
    }
}

/// An empty line opens no fence.
pub proof fn lemma_blank_no_fence()
    ensures
        classify::fence_mark(Seq::<u8>::empty()) is None,
        helpers::blank(Seq::<u8>::empty()),
{
    let line = Seq::<u8>::empty();
    bytes::lemma_find_from_is(line, helpers::not_space(), 0, 0);
    assert(helpers::without_leading_spaces(line).len() == 0);
}

/// The scan over the lines of a bookmark does not depend on what follows them.
proof fn lemma_same_scan(a: Seq<u8>, s: Seq<u8>, l: Seq<LineSpan>, m: Seq<LineSpan>, n: int)
    requires
        0 <= n <= l.len(),
        l.len() <= m.len(),
        forall|k: int|
            0 <= k < l.len() ==> (#[trigger] l[k]).content(a) == m[k].content(s),
    ensures
        classify::bookmark_scan(a, l, n) == classify::bookmark_scan(s, m, n),
    decreases n,
{
    if n > 0 {
        lemma_same_scan(a, s, l, m, n - 1);
        assert(l[n - 1].content(a) == m[n - 1].content(s));
    }
}

/// The sections of a bookmark do not depend on what follows them.
proof fn lemma_same_section_lines(t: Seq<Token>, u: Seq<Token>, n: int)
    requires
        0 <= n <= t.len(),
        n <= u.len(),
        forall|k: int| 0 <= k < n ==> u[k] == #[trigger] t[k],
    ensures
        assemble::section_lines(t, n) == assemble::section_lines(u, n),
        forall|k: int|
            0 <= k < assemble::section_lines(t, n).len() ==> 0
                <= #[trigger] assemble::section_lines(t, n)[k] < n,
    decreases n,
{
    if n > 0 {
        lemma_same_section_lines(t, u, n - 1);
        assert(u[n - 1] == t[n - 1]);
    }
}

/// One more section that is not content leaves no earlier tag section before content.
proof fn lemma_leading_stays(x: Seq<SectionView>, y: Seq<SectionView>, i: int)
    requires
        0 <= i <= x.len(),
        y.len() == x.len() + 1,
        forall|k: int|
            0 <= k < x.len() ==> (#[trigger] y[k]).text == x[k].text && y[k].exact_tags
                == x[k].exact_tags,
        !assemble::is_content_section(y.last()),
        assemble::leading_tags(x, i) == x.len(),
    ensures
        assemble::leading_tags(y, i) == y.len(),
    decreases x.len() - i,
{
    if i < x.len() {
        lemma_leading_stays(x, y, i + 1);
        if assemble::content_after(y, i) {
            let j = choose|j: int|
                i < j < y.len() && assemble::is_content_section(#[trigger] y[j]);
            assert(j < x.len());
            assert(assemble::is_content_section(x[j]));
        }
    } else {
        assert(!assemble::content_after(y, i));
        assert(assemble::leading_tags(y, i + 1) == y.len());
    }
}

/// What stands before the tag section of a bookmark leaves no fence open, and has no tag
/// section of its own that comes before content.
pub open spec fn settled(front: Seq<u8>) -> bool {
    let l = tokenizer::source_lines(front);
    let t = parser::tokens_of(front, DocumentKind::Bookmark);
    let x = assemble::sections(
        front,
        l,
        t,
        assemble::section_lines(t, t.len() as int),
    );
    &&& classify::bookmark_scan(front, l, l.len() as int).fence is None
    &&& assemble::leading_tags(x, 0) == x.len()
}

/// The lines of a bookmark that ends with a tag section.
proof fn lemma_tagged_lines(front: Seq<u8>, section: Seq<u8>, v: Seq<Seq<u8>>)
    requires
        section == readback::paragraph(helpers::reserved_heading("Tags"@))
            + readback::hashed_line(v) + seq![LF],
        v.len() > 0,
        forall|k: int| 0 <= k < v.len() ==> readback::word_bytes(#[trigger] v[k]),
        front.len() > 0,
        front.last() == LF,
        tokenizer::preamble_len(front + section) == 0,
        tokenizer::preamble_len(front) == 0,
    ensures
        ({
            let s = front + section;
            let f = tokenizer::source_lines(front);
            let l = tokenizer::source_lines(s);
            let n = f.len() as int;
            &&& l.len() == n + 3
            &&& forall|k: int| 0 <= k < n ==> (#[trigger] f[k]).content(front) == l[k].content(s)
            &&& l[n].start == front.len()
            &&& l[n].content(s) == helpers::reserved_heading("Tags"@)
            &&& l[n + 1].content(s) == Seq::<u8>::empty()
            &&& l[n + 2].content(s) == readback::hashed_line(v)
        }),
{
    let s = front + section;
    let a = front.len() as int;
    crate::parser::readback::lemma_lines_join(front, section, 0);
    assert(s.skip(a) =~= section);
    lemma_section_lines(s, a, v);
    let f = tokenizer::source_lines(front);
    let l = tokenizer::source_lines(s);
    let more = tokenizer::lines_from(s, a);
    assert(l == f + more);
    let n = f.len() as int;
    assert(l[n] == more[0] && l[n + 1] == more[1] && l[n + 2] == more[2]);
    assemble::lemma_source_lines(front);
    assert forall|k: int| 0 <= k < n implies (#[trigger] f[k]).content(front)
        == l[k].content(s) by {
        assert(l[k] == f[k]);
        assert(tokenizer::line_ok(front, f[k]));
        assert(f[k].content(front) =~= f[k].content(s));
    }
}

/// How the lines of a tag section are classified where no fence is open.
pub proof fn lemma_section_classes(scan: classify::BookmarkScan, v: Seq<Seq<u8>>)
    requires
        scan.fence is None,
        v.len() > 0,
        forall|k: int| 0 <= k < v.len() ==> readback::word_bytes(#[trigger] v[k]),
    ensures
        ({
            let head = helpers::reserved_heading("Tags"@);
            let token = classify::bookmark_token(scan, head);
            let next = classify::bookmark_step(scan, head);
            let last = classify::bookmark_step(next, Seq::<u8>::empty());
            &&& token matches Token::Heading { level, text, .. } && level == 2 && text == "Tags"@
            &&& classify::bookmark_token(next, Seq::<u8>::empty()) is Blank
            &&& classify::bookmark_token(last, readback::hashed_line(v)) is Body
        }),
{
    let head = helpers::reserved_heading("Tags"@);
    lemma_tag_heading();
    lemma_tags_no_heading(v);
    lemma_no_fence(head);
    lemma_blank_no_fence();
    assert(readback::word_bytes(v[0]));
    let line = readback::hashed_line(v);
    assert(line.len() > 0 && line[0] == HASH);
    lemma_no_fence(line);
    assert(helpers::heading_level(head) is Some);
    assert(helpers::heading_level(line) is None);
}

/// The lines of a tag section leave the scan as it is.
pub proof fn lemma_section_steps(scan: classify::BookmarkScan, v: Seq<Seq<u8>>)
    requires
        scan.fence is None,
        v.len() > 0,
        forall|k: int| 0 <= k < v.len() ==> readback::word_bytes(#[trigger] v[k]),
    ensures
        classify::bookmark_step(scan, helpers::reserved_heading("Tags"@)) == scan,
        classify::bookmark_step(scan, Seq::<u8>::empty()) == scan,
        classify::bookmark_step(scan, readback::hashed_line(v)) == scan,
{
    let head = helpers::reserved_heading("Tags"@);
    lemma_tag_heading();
    lemma_tags_no_heading(v);
    lemma_no_fence(head);
    lemma_blank_no_fence();
    crate::parser::tag_sections::lemma_tags_no_content();
    assert(readback::word_bytes(v[0]));
    let line = readback::hashed_line(v);
    assert(line.len() > 0 && line[0] == HASH);
    lemma_no_fence(line);
    assert(helpers::heading_level(head) is Some);
    assert(helpers::heading_level(line) is None);
}

/// The tags of a bookmark that ends with a tag section.
#[verifier::rlimit(40)]
#[verifier::spinoff_prover]
proof fn lemma_bookmark_tags(front: Seq<u8>, section: Seq<u8>, v: Seq<Seq<u8>>)
    requires
        section == readback::paragraph(helpers::reserved_heading("Tags"@))
            + readback::hashed_line(v) + seq![LF],
        v.len() > 0,
        forall|k: int| 0 <= k < v.len() ==> readback::word_bytes(#[trigger] v[k]),
        front.len() > 0,
        front.last() == LF,
        tokenizer::preamble_len(front + section) == 0,
        tokenizer::preamble_len(front) == 0,
        settled(front),
        parser::partition_of(front + section, DocumentKind::Bookmark) is Some,
    ensures
        parser::partition_of(front + section, DocumentKind::Bookmark)->0.tags == Some(
            Span { start: front.len() as int, end: (front + section).len() as int },
        ),
{
    let s = front + section;
    lemma_tagged_lines(front, section, v);
    let f = tokenizer::source_lines(front);
    let l = tokenizer::source_lines(s);
    let n = f.len() as int;
    let t = parser::tokens_of(front, DocumentKind::Bookmark);
    let u = parser::tokens_of(s, DocumentKind::Bookmark);
    assert forall|k: int| 0 <= k < n implies u[k] == #[trigger] t[k] by {
        lemma_same_scan(front, s, f, l, k);
        assert(f[k].content(front) == l[k].content(s));
    }
    lemma_same_scan(front, s, f, l, n);
    let scan = classify::bookmark_scan(s, l, n);
    lemma_section_classes(scan, v);
    assert(classify::bookmark_scan(s, l, n + 1) == classify::bookmark_step(
        scan,
        l[n].content(s),
    ));
    assert(classify::bookmark_scan(s, l, n + 2) == classify::bookmark_step(
        classify::bookmark_scan(s, l, n + 1),
        l[n + 1].content(s),
    ));
    lemma_same_section_lines(t, u, n);
    let at = assemble::section_lines(t, n);
    assert(assemble::section_lines(u, n + 1) == at.push(n));
    assert(assemble::section_lines(u, n + 2) == at.push(n));
    assert(assemble::section_lines(u, n + 3) == at.push(n));
    let x = assemble::sections(front, f, t, at);
    let y = assemble::sections(s, l, u, at.push(n));
    assert forall|k: int| 0 <= k < x.len() implies (#[trigger] y[k]).text == x[k].text
        && y[k].exact_tags == x[k].exact_tags by {
        assert(at.push(n)[k] == at[k]);
        assert(0 <= at[k] < n);
        assert(f[at[k]].content(front) == l[at[k]].content(s));
    }
    reveal_strlit("Tags");
    reveal_strlit("Content");
    reveal_strlit("Source");
    assert("Tags"@.len() == 4 && "Content"@.len() == 7 && "Source"@.len() == 6);
    assert(y.last().exact_tags);
    lemma_leading_stays(x, y, 0);
}

/// A new bookmark reads back as it was made: its title, its URL line, and its tags one by one,
/// without their `#`. This leaves out a title or a URL of several lines, an empty URL or one
/// with a `>`, tags that are not one word each, and, for the tags, a comment that leaves a code
/// fence open or brings a tag section of its own before content.
#[verifier::rlimit(40)]
#[verifier::spinoff_prover]
pub proof fn law_new_bookmark_reads_back(
    url: Seq<char>,
    title: Option<Seq<char>>,
    tags: Seq<Seq<char>>,
    comment: Option<Seq<char>>,
)
    requires
        linkable(url),
        title matches Some(t) ==> readback::on_one_line(t),
        forall|k: int| 0 <= k < tags.len() ==> readback::plain(#[trigger] tags[k]),
    ensures
        ({
            let s = vstd::utf8::encode_utf8(content::bookmark_text(url, title, tags, comment));
            let doc = parser::parsed_as(s, DocumentKind::Bookmark)->Ok_0;
            &&& parser::parsed_as(s, DocumentKind::Bookmark) is Ok
            &&& document::opt_slice(s, doc.partition.title) == readback::title_line_of(title)
            &&& document::opt_slice(s, doc.partition.url) == Some(
                vstd::utf8::encode_utf8(link_line(url)).push(LF),
            )
            &&& tags.len() > 0 && settled(bookmark_front(url, title, comment))
                ==> document::slices(s, doc.tag_spans()) == readback::words(tags)
        }),
{
    let s = vstd::utf8::encode_utf8(content::bookmark_text(url, title, tags, comment));
    let front = bookmark_front(url, title, comment);
    let section = vstd::utf8::encode_utf8(content::tag_section_text(tags));
    let about = vstd::utf8::encode_utf8(comment_text(comment));
    let link = vstd::utf8::encode_utf8(link_line(url));
    lemma_bookmark_bytes(url, title, tags, comment);
    lemma_link_line(url);
    let rest = about + section;
    match title {
        Some(t) => {
            let line = vstd::utf8::encode_utf8("# "@ + t);
            readback::lemma_title_line(t);
            assert(s =~= readback::paragraph(line) + readback::paragraph(link) + rest);
            lemma_titled_tokens(s, line, link, rest);
            assert(line.push(LF) =~= line + seq![LF]);
            assert(front[0] == HASH);
        },
        None => {
            assert(s =~= readback::paragraph(link) + rest);
            lemma_linked_tokens(s, link, rest);
            assert(front =~= readback::paragraph(link) + about);
            assert(front[0] == LESS);
        },
    }
    lemma_bookmark_head(s);
    let doc = parser::parsed_as(s, DocumentKind::Bookmark)->Ok_0;
    if tags.len() > 0 && settled(front) {
        let v = readback::words(tags);
        readback::lemma_tags_bytes(tags);
        assert forall|k: int| 0 <= k < v.len() implies readback::word_bytes(#[trigger] v[k]) by {
            assert(readback::plain(tags[k]));
        }
        lemma_section_bytes(tags);
        lemma_bookmark_tags(front, section, v);
        assert(s.skip(front.len() as int) =~= section);
        lemma_tags_of_section(s, doc.partition.tags->0, section, v);
    }
}

} // verus!
