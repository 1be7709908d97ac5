//! What is read back of the description, the checklist and the comment of what was created.

use crate::bytes;
use crate::bytes::{Span, HASH, LESS, LF};
use crate::parser;
use crate::parser::assemble;
use crate::parser::classify;
use crate::parser::document;
use crate::parser::document::DocumentKind;
use crate::parser::helpers;
use crate::parser::link_bodies;
use crate::parser::link_laws;
use crate::parser::pieces;
use crate::parser::readback;
use crate::parser::tag_sections;
use crate::parser::task_laws;
use crate::text;
use crate::tokenizer;
use crate::tokenizer::LineSpan;
use crate::transaction::content;
use crate::transaction::created;
use crate::transaction::readback as written;
use crate::transaction::retagged_links;
use vstd::prelude::*;

verus! {

/// A checklist ends with a line feed.
proof fn lemma_tasks_end(tasks: Seq<Seq<char>>)
    requires
        tasks.len() > 0,
    ensures
        content::tasks_text(tasks).len() > 0,
        content::tasks_text(tasks).last() == '\n',
{
    let parts = tasks.map_values(|t: Seq<char>| "- [ ] "@ + t + "\n"@);
    reveal_strlit("\n");
    let last = parts.last();
    assert(last == "- [ ] "@ + tasks.last() + "\n"@);
    assert(last.len() > 0 && last.last() == '\n');
    let all = text::join(parts, ""@);
    if parts.len() > 1 {
        assert(all == text::join(parts.drop_last(), ""@) + ""@ + last);
    }
    assert(all.last() == last.last());
}

/// What stands between the title and the tag section of a new task, where there is anything,
/// starts with a heading and ends with an empty line.
proof fn lemma_middle_shape(description: Option<Seq<char>>, tasks: Seq<Seq<char>>)
    requires
        tasks.len() > 0 || description is Some,
    ensures
        ({
            let middle = created::task_middle(description, tasks);
            &&& middle.len() >= 3
            &&& middle[0] == '#'
            &&& middle[middle.len() - 1] == '\n'
            &&& middle[middle.len() - 2] == '\n'
        }),
{
    let x = if tasks.len() > 0 {
        "## Tasks\n\n"@ + content::tasks_text(tasks) + "\n"@
    } else {
        ""@
    };
    let y = match description {
        Some(d) => "## Description\n\n"@ + content::ended(d) + "\n"@,
        None => ""@,
    };
    let middle = created::task_middle(description, tasks);
    assert(middle == x + y);
    reveal_strlit("\n");
    reveal_strlit("");
    reveal_strlit("## Tasks\n\n");
    reveal_strlit("## Description\n\n");
    if tasks.len() > 0 {
        lemma_tasks_end(tasks);
        assert(x[x.len() - 1] == '\n');
        assert(x[x.len() - 2] == content::tasks_text(tasks).last());
        assert(x[0] == '#');
    }
    if let Some(d) = description {
        assert(content::ended(d).last() == '\n');
        assert(y[y.len() - 1] == '\n');
        assert(y[y.len() - 2] == content::ended(d).last());
        assert(y[0] == '#');
        assert(middle[middle.len() - 1] == y[y.len() - 1]);
        assert(middle[middle.len() - 2] == y[y.len() - 2]);
    } else {
        assert(middle =~= x);
    }
}

/// The bytes of a text that starts with a `#` and ends with an empty line.
proof fn lemma_shape_bytes(m: Seq<char>)
    requires
        m.len() >= 3,
        m[0] == '#',
        m[m.len() - 1] == '\n',
        m[m.len() - 2] == '\n',
    ensures
        ({
            let b = vstd::utf8::encode_utf8(m);
            &&& b.len() >= 3
            &&& b[0] == HASH
            &&& b.last() == LF
            &&& b[b.len() - 2] == LF
        }),
{
    let n = m.len() as int;
    let head = m.take(1);
    let inner = m.subrange(1, n - 2);
    let tail = m.skip(n - 2);
    assert(m =~= head + inner + tail);
    text::lemma_encode_concat(head + inner, tail);
    text::lemma_encode_concat(head, inner);
    vstd::utf8::is_ascii_chars_encode_utf8(head);
    vstd::utf8::is_ascii_chars_encode_utf8(tail);
}

/// A text that starts with a `#` does not start with a blank line.
pub proof fn lemma_hash_opens(x: Seq<u8>)
    requires
        x.len() > 0,
        x[0] == HASH,
    ensures
        !helpers::blank(readback::first_line(x)),
        readback::first_line(x).len() > 0,
        readback::first_line(x)[0] == HASH,
{
    bytes::lemma_find_from(x, tokenizer::breaks(), 0);
    let e = tokenizer::line_end(x, 0);
    if e == 0 {
        assert(tokenizer::breaks()(x[0]));
    }
    assert(readback::first_line(x)[0] == HASH);
    assert(!bytes::is_space_or_tab(readback::first_line(x)[0]));
}

/// The lines of a tag section.
pub proof fn lemma_section_rows(section: Seq<u8>, v: Seq<Seq<u8>>)
    requires
        section == written::paragraph(helpers::reserved_heading("Tags"@)) + written::hashed_line(v)
            + seq![LF],
        v.len() > 0,
        forall|k: int| 0 <= k < v.len() ==> written::word_bytes(#[trigger] v[k]),
    ensures
        pieces::rows_of(section) == seq![
            helpers::reserved_heading("Tags"@),
            Seq::<u8>::empty(),
            written::hashed_line(v),
        ],
        section.len() > 0,
        section[0] == HASH,
        section.last() == LF,
{
    assert(section.skip(0) =~= section);
    created::lemma_section_lines(section, 0, v);
    assert(pieces::rows_of(section) =~= seq![
        helpers::reserved_heading("Tags"@),
        Seq::<u8>::empty(),
        written::hashed_line(v),
    ]);
}

/// The tag section of a task is one.
proof fn lemma_new_section(section: Seq<u8>, v: Seq<Seq<u8>>)
    requires
        section == written::paragraph(helpers::reserved_heading("Tags"@)) + written::hashed_line(v)
            + seq![LF],
        v.len() > 0,
        forall|k: int| 0 <= k < v.len() ==> written::word_bytes(#[trigger] v[k]),
    ensures
        task_laws::is_section(section),
{
    lemma_section_rows(section, v);
    created::lemma_tag_heading();
    created::lemma_tags_no_heading(v);
    let t = pieces::task_tokens(pieces::rows_of(section));
    assert(helpers::blank(Seq::<u8>::empty()));
    assert(t.len() == 3);
    assert(t[1] is Blank);
    assert(t[2] is Body);
    assert(assemble::last_heading(t, 1) == 0);
    assert(assemble::last_heading(t, 2) == 0);
    assert(assemble::last_heading(t, 3) == 0);
}

/// The body of a new task in its bytes: its checklist and its description, each under its
/// heading, and where a tag section follows without the line break that sets it apart.
pub open spec fn task_body(
    description: Option<Seq<char>>,
    tasks: Seq<Seq<char>>,
    tagged: bool,
) -> Seq<u8> {
    let middle = vstd::utf8::encode_utf8(created::task_middle(description, tasks));
    if tagged && middle.len() > 0 {
        middle.drop_last()
    } else {
        middle
    }
}

/// The tail of a new task.
#[verifier::rlimit(40)]
#[verifier::spinoff_prover]
proof fn lemma_new_tail(middle: Seq<u8>, section: Seq<u8>, tagged: bool)
    requires
        middle.len() > 0 ==> middle.len() >= 3 && middle[0] == HASH && middle.last() == LF
            && middle[middle.len() - 2] == LF,
        tagged ==> task_laws::is_section(section),
        !tagged ==> section.len() == 0 && task_laws::task_tail(middle).tags is None,
    ensures
        ({
            let x = seq![LF] + middle + section;
            let body = if tagged && middle.len() > 0 {
                middle.drop_last()
            } else {
                middle
            };
            document::concat_ranges(x, task_laws::task_tail(x).bodies) == body
        }),
{
    let g = seq![LF];
    let x = g + middle + section;
    let none = Seq::<u8>::empty();
    assert(task_laws::one_break(g));
    task_laws::lemma_empty_row(g);
    let body = if tagged && middle.len() > 0 {
        middle.drop_last()
    } else {
        middle
    };
    if body.len() > 0 {
        assert(body[0] == HASH);
        lemma_hash_opens(body);
    }
    if tagged {
        let sep = if middle.len() > 0 {
            g
        } else {
            none
        };
        assert(x =~= g + (body + (sep + section)));
        if middle.len() > 0 {
            assert(body.last() == middle[middle.len() - 2]);
        }
        task_laws::lemma_tail_tagged(g, body, sep, section);
    } else {
        assert(x =~= g + middle);
        task_laws::lemma_tail_untagged(g, middle);
    }
    if body.len() > 0 {
        let r = Span { start: 1, end: 1 + body.len() as int };
        assert(seq![r].drop_last() =~= Seq::<Span>::empty());
        assert(document::concat_ranges(x, seq![r].drop_last()) =~= none);
        assert(bytes::slice_of(x, r) =~= body);
        assert(document::concat_ranges(x, seq![r]) =~= body);
    } else {
        assert(document::concat_ranges(x, Seq::empty()) =~= body);
    }
}

/// The checklist and the description of a new task read back as its body. This leaves out a
/// title of several lines, tags that are not one word each, and a task without tags whose
/// description ends with a tag section of its own.
#[verifier::rlimit(40)]
#[verifier::spinoff_prover]
pub proof fn law_new_task_body_reads_back(
    title: Seq<char>,
    description: Option<Seq<char>>,
    tasks: Seq<Seq<char>>,
    tags: Seq<Seq<char>>,
)
    requires
        written::on_one_line(title),
        forall|k: int| 0 <= k < tags.len() ==> written::plain(#[trigger] tags[k]),
        tags.len() == 0 ==> task_laws::task_tail(task_body(description, tasks, false)).tags is None,
    ensures
        ({
            let s = vstd::utf8::encode_utf8(content::todo_text(title, description, tasks, tags));
            let doc = parser::parsed_as(s, DocumentKind::Todo)->Ok_0;
            &&& parser::parsed_as(s, DocumentKind::Todo) is Ok
            &&& doc.body() == task_body(description, tasks, tags.len() > 0)
        }),
{
    let s = vstd::utf8::encode_utf8(content::todo_text(title, description, tasks, tags));
    let line = vstd::utf8::encode_utf8(created::task_heading(title));
    let middle = vstd::utf8::encode_utf8(created::task_middle(description, tasks));
    let section = vstd::utf8::encode_utf8(content::tag_section_text(tags));
    created::lemma_task_bytes(title, description, tasks, tags);
    created::lemma_heading_line(title);
    reveal_strlit("");
    if tasks.len() > 0 || description is Some {
        lemma_middle_shape(description, tasks);
        lemma_shape_bytes(created::task_middle(description, tasks));
    } else {
        assert(created::task_middle(description, tasks) =~= Seq::<char>::empty());
        assert(middle =~= Seq::<u8>::empty());
    }
    if tags.len() > 0 {
        let v = written::words(tags);
        written::lemma_tags_bytes(tags);
        assert forall|k: int| 0 <= k < v.len() implies written::word_bytes(#[trigger] v[k]) by {
            assert(written::plain(tags[k]));
        }
        created::lemma_section_bytes(tags);
        lemma_new_section(section, v);
    } else {
        assert(section =~= Seq::<u8>::empty());
    }
    lemma_new_tail(middle, section, tags.len() > 0);
    let none = Seq::<u8>::empty();
    let a = line.push(LF);
    let x = seq![LF] + middle + section;
    assert(s =~= a + x);
    assert(none + a =~= a);
    assert(s[0] == HASH);
    task_laws::lemma_line_after(none, 0, line);
    assert(tokenizer::lines_from(none, 0) =~= Seq::<LineSpan>::empty());
    assert(pieces::rows(a, tokenizer::lines_from(a, 0)) =~= seq![line]);
    assert(!helpers::blank(line)) by {
        assert(!bytes::is_space_or_tab(line[0]));
    }
    let t = pieces::task_tokens(pieces::rows(a, tokenizer::lines_from(a, 0)));
    assert(t.len() == 1 && t[0] !is Blank);
    assert(a.last() == LF);
    task_laws::lemma_task_tail(a, x, 0);
    task_laws::lemma_task_reads(a, x, 0);
}
/// The body of a new bookmark in its bytes: its comment under a heading, and where a tag section
/// follows without the line break that sets it apart.
pub open spec fn link_body(comment: Option<Seq<char>>, tagged: bool) -> Seq<u8> {
    let about = vstd::utf8::encode_utf8(created::comment_text(comment));
    if tagged && about.len() > 0 {
        about.drop_last()
    } else {
        about
    }
}

/// A comment section starts with its heading and ends with an empty line.
proof fn lemma_comment_shape(c: Seq<char>)
    ensures
        ({
            let about = created::comment_text(Some(c));
            &&& about.len() >= 3
            &&& about[0] == '#'
            &&& about[about.len() - 1] == '\n'
            &&& about[about.len() - 2] == '\n'
        }),
{
    reveal_strlit("\n");
    reveal_strlit("## Content\n\n");
    let about = created::comment_text(Some(c));
    assert(content::ended(c).last() == '\n');
    assert(about[about.len() - 2] == content::ended(c).last());
}

/// The bytes of a comment section start with its heading line.
proof fn lemma_comment_heading(c: Seq<char>)
    ensures
        ({
            let about = vstd::utf8::encode_utf8(created::comment_text(Some(c)));
            let head = helpers::reserved_heading("Content"@);
            &&& about.len() >= 13
            &&& about.take(12) == written::paragraph(head)
            &&& written::unbroken(head)
            &&& head.len() == 10
        }),
{
    reveal_strlit("## Content\n\n");
    reveal_strlit("Content");
    reveal_strlit("\n");
    let rest = content::ended(c) + "\n"@;
    assert(created::comment_text(Some(c)) =~= "## Content\n\n"@ + rest);
    text::lemma_encode_concat("## Content\n\n"@, rest);
    vstd::utf8::is_ascii_chars_encode_utf8("## Content\n\n"@);
    vstd::utf8::is_ascii_chars_encode_utf8("Content"@);
    created::lemma_ended_bytes(content::ended(c));
    let head = helpers::reserved_heading("Content"@);
    let first = vstd::utf8::encode_utf8("## Content\n\n"@);
    assert(first =~= written::paragraph(head));
    let about = vstd::utf8::encode_utf8(created::comment_text(Some(c)));
    assert(about.take(12) =~= first);
}

/// The heading of a comment section is one.
proof fn lemma_content_token()
    ensures
        ({
            let head = helpers::reserved_heading("Content"@);
            let token = classify::bookmark_token(pieces::at_start(), head);
            tag_sections::opens_section(token)
        }),
{
    let head = helpers::reserved_heading("Content"@);
    assert(head[0] == HASH && head[1] == HASH && head[2] == crate::bytes::SPACE);
    created::lemma_no_fence(head);
    bytes::lemma_find_from_is(head, helpers::not_space(), 0, 0);
    bytes::lemma_find_from_is(head, helpers::not_hash(), 0, 2);
    assert(helpers::heading_level(head) == Some(2u8));
}

/// What stands between the title and the comment of a new bookmark.
pub open spec fn link_lead(titled: bool, link: Seq<u8>) -> Seq<u8> {
    (if titled {
        seq![LF]
    } else {
        Seq::<u8>::empty()
    }) + written::paragraph(link)
}

/// The URL line of a new bookmark leads to its body.
#[verifier::rlimit(40)]
#[verifier::spinoff_prover]
proof fn lemma_link_lead(titled: bool, link: Seq<u8>)
    requires
        written::unbroken(link),
        link.len() > 0,
        link[0] == LESS,
        helpers::url_line(link),
    ensures
        ({
            let g = link_lead(titled, link);
            let t = link_laws::tail_tokens(g);
            &&& link_bodies::leads(t)
            &&& assemble::next_content(t, 0) < t.len()
            &&& !assemble::is_title(t[assemble::next_content(t, 0)])
            &&& tag_sections::scan_behind(g) == pieces::at_start()
            &&& g.last() == LF
        }),
{
    let start = pieces::at_start();
    let none = Seq::<u8>::empty();
    let front = if titled {
        seq![LF]
    } else {
        none
    };
    let g = link_lead(titled, link);
    assert(tokenizer::lines_from(none, 0) =~= Seq::<LineSpan>::empty());
    if titled {
        assert(task_laws::one_break(front));
        task_laws::lemma_empty_row(front);
    }
    let r0 = pieces::rows_of(front);
    task_laws::lemma_line_after(front, 0, link);
    let mid = front + link.push(LF);
    task_laws::lemma_line_after(mid, 0, none);
    assert(mid + none.push(LF) =~= g);
    let r = pieces::rows_of(g);
    assert(r == r0.push(link).push(none));
    created::lemma_no_fence(link);
    created::lemma_blank_no_fence();
    let n = r0.len() as int;
    let t = link_laws::tail_tokens(g);
    assert(pieces::scan_over(start, r, 0) == start);
    if titled {
        assert(r[0] == none);
        assert(pieces::scan_over(start, r, 1) == classify::bookmark_step(start, none));
        assert(t[0] is Blank);
    }
    assert(pieces::scan_over(start, r, n) == start);
    assert(pieces::scan_over(start, r, n + 1) == classify::bookmark_step(start, link));
    assert(pieces::scan_over(start, r, n + 2) == classify::bookmark_step(start, none));
    assert(t[n] is Url);
    assert(t[n + 1] is Blank);
    assert(t.len() == n + 2);
    let full = assemble::has_content();
    assert(full(t[n]) && !full(t[n + 1]));
    if titled {
        assert(!full(t[0]));
    }
    bytes::lemma_find_from_is(t, full, 0, n);
    bytes::lemma_find_from_is(t, full, n + 1, n + 2);
}

/// What follows the title of a new bookmark.
#[verifier::rlimit(40)]
#[verifier::spinoff_prover]
proof fn lemma_new_link_tail(
    titled: bool,
    link: Seq<u8>,
    comment: Option<Seq<char>>,
    section: Seq<u8>,
    v: Seq<Seq<u8>>,
)
    requires
        written::unbroken(link),
        link.len() > 0,
        link[0] == LESS,
        helpers::url_line(link),
        v.len() > 0 ==> section == written::paragraph(helpers::reserved_heading("Tags"@))
            + written::hashed_line(v) + seq![LF],
        v.len() == 0 ==> section.len() == 0,
        forall|k: int| 0 <= k < v.len() ==> written::word_bytes(#[trigger] v[k]),
        link_bodies::one_piece(pieces::at_start(), link_body(comment, v.len() > 0)),
        v.len() > 0 ==> tag_sections::scan_after(
            pieces::at_start(),
            link_body(comment, v.len() > 0),
        ).fence is None,
    ensures
        ({
            let about = vstd::utf8::encode_utf8(created::comment_text(comment));
            let x = link_lead(titled, link) + (about + section);
            document::concat_ranges(x, link_laws::link_tail(x).bodies) == link_body(
                comment,
                v.len() > 0,
            )
        }),
{
    let start = pieces::at_start();
    let about = vstd::utf8::encode_utf8(created::comment_text(comment));
    let g = link_lead(titled, link);
    let body = link_body(comment, v.len() > 0);
    let x = g + (about + section);
    let none = Seq::<u8>::empty();
    lemma_link_lead(titled, link);
    reveal_strlit("");
    if let Some(c) = comment {
        lemma_comment_shape(c);
        lemma_shape_bytes(created::comment_text(comment));
        lemma_body_opens(c, body);
    } else {
        assert(about =~= none);
        assert(body =~= none);
        assert(tokenizer::lines_from(none, 0) =~= Seq::<LineSpan>::empty());
    }
    if v.len() > 0 {
        let sep = if about.len() > 0 {
            seq![LF]
        } else {
            none
        };
        let after = tag_sections::scan_after(start, body);
        retagged_links::lemma_section_reads(after, section, v);
        assert(x =~= g + (body + (sep + section)));
        if about.len() > 0 {
            assert(body.last() == about[about.len() - 2]);
        }
        link_bodies::lemma_tail_before_tags(g, body, sep, section);
    } else {
        assert(x =~= g + body);
        link_bodies::lemma_tail_alone(g, body);
    }
    if body.len() > 0 {
        let r = Span { start: g.len() as int, end: g.len() as int + body.len() };
        assert(seq![r].drop_last() =~= Seq::<Span>::empty());
        assert(document::concat_ranges(x, seq![r].drop_last()) =~= none);
        assert(bytes::slice_of(x, r) =~= body);
        assert(document::concat_ranges(x, seq![r]) =~= body);
    } else {
        assert(document::concat_ranges(x, Seq::empty()) =~= body);
    }
}

/// The body of a new bookmark with a comment starts with the heading of the comment.
proof fn lemma_body_opens(c: Seq<char>, body: Seq<u8>)
    requires
        ({
            let about = vstd::utf8::encode_utf8(created::comment_text(Some(c)));
            body == about || body == about.drop_last()
        }),
    ensures
        body.len() > 0,
        ({
            let t = tag_sections::tokens_behind(pieces::at_start(), body);
            &&& t.len() > 0
            &&& tag_sections::opens_section(t[0])
            &&& assemble::section_lines(t, t.len() as int).len() > 0
        }),
{
    let about = vstd::utf8::encode_utf8(created::comment_text(Some(c)));
    let head = helpers::reserved_heading("Content"@);
    lemma_comment_heading(c);
    assert(body.len() >= 12);
    assert(body.subrange(0, 12) =~= about.take(12));
    written::lemma_paragraph_lines(body, 0, head);
    let l = tokenizer::lines_from(body, 0);
    let r = pieces::rows_of(body);
    assert(l[0].content(body) =~= head) by {
        assert forall|k: int| 0 <= k < 10 implies body[k] == head[k] by {
            assert(body.subrange(0, 12)[k] == body[k]);
        }
    }
    assert(r[0] == head);
    lemma_content_token();
    let t = tag_sections::tokens_behind(pieces::at_start(), body);
    assert(pieces::scan_over(pieces::at_start(), r, 0) == pieces::at_start());
    assert(t[0] == classify::bookmark_token(pieces::at_start(), head));
    tag_sections::lemma_first_section(t, t.len() as int, 0);
}

/// The comment of a new bookmark reads back as its body. This leaves out a title or a URL of
/// several lines, an empty URL or one with a `>`, tags that are not one word each, and a comment
/// that does not stay in one piece: one with a section named for tags, content or source, or,
/// where tags follow, with a code fence that is left open.
#[verifier::rlimit(40)]
#[verifier::spinoff_prover]
pub proof fn law_new_bookmark_body_reads_back(
    url: Seq<char>,
    title: Option<Seq<char>>,
    tags: Seq<Seq<char>>,
    comment: Option<Seq<char>>,
)
    requires
        created::linkable(url),
        title matches Some(t) ==> written::on_one_line(t),
        forall|k: int| 0 <= k < tags.len() ==> written::plain(#[trigger] tags[k]),
        link_bodies::one_piece(pieces::at_start(), link_body(comment, tags.len() > 0)),
        tags.len() > 0 ==> tag_sections::scan_after(
            pieces::at_start(),
            link_body(comment, true),
        ).fence is None,
    ensures
        ({
            let s = vstd::utf8::encode_utf8(content::bookmark_text(url, title, tags, comment));
            let doc = parser::parsed_as(s, DocumentKind::Bookmark)->Ok_0;
            &&& parser::parsed_as(s, DocumentKind::Bookmark) is Ok
            &&& doc.body() == link_body(comment, tags.len() > 0)
        }),
{
    let s = vstd::utf8::encode_utf8(content::bookmark_text(url, title, tags, comment));
    let section = vstd::utf8::encode_utf8(content::tag_section_text(tags));
    let about = vstd::utf8::encode_utf8(created::comment_text(comment));
    let link = vstd::utf8::encode_utf8(created::link_line(url));
    let v = written::words(tags);
    let none = Seq::<u8>::empty();
    created::lemma_bookmark_bytes(url, title, tags, comment);
    created::lemma_link_line(url);
    reveal_strlit("");
    if tags.len() > 0 {
        written::lemma_tags_bytes(tags);
        assert forall|k: int| 0 <= k < v.len() implies written::word_bytes(#[trigger] v[k]) by {
            assert(written::plain(tags[k]));
        }
        created::lemma_section_bytes(tags);
    } else {
        assert(section =~= none);
    }
    lemma_new_link_tail(title is Some, link, comment, section, v);
    lemma_link_lead(title is Some, link);
    let g = link_lead(title is Some, link);
    let x = g + (about + section);
    match title {
        Some(t) => {
            let line = vstd::utf8::encode_utf8("# "@ + t);
            written::lemma_title_line(t);
            let a = line.push(LF);
            assert(s =~= a + x);
            assert(s[0] == HASH);
            assert(none + a =~= a);
            task_laws::lemma_line_after(none, 0, line);
            assert(tokenizer::lines_from(none, 0) =~= Seq::<LineSpan>::empty());
            let r = pieces::rows(a, tokenizer::lines_from(a, 0));
            assert(r =~= seq![line]);
            created::lemma_title_step(line);
            let tt = pieces::link_tokens(pieces::at_start(), r);
            assert(pieces::scan_over(pieces::at_start(), r, 0) == pieces::at_start());
            assert(tt.len() == 1 && assemble::is_title(tt[0]));
            assert(a.last() == LF);
            link_laws::lemma_link_tail(a, x, 0);
            link_laws::lemma_link_reads(a, x, 0);
        },
        None => {
            assert(s =~= none + x);
            assert(s[0] == LESS);
            assert(tokenizer::lines_from(none, 0) =~= Seq::<LineSpan>::empty());
            let r = pieces::rows(none, tokenizer::lines_from(none, 0));
            assert(link_laws::link_head(r, -1));
            lemma_link_first(g, about + section);
            link_laws::lemma_link_tail(none, x, -1);
            link_laws::lemma_link_reads(none, x, -1);
        },
    }
}

/// The first content of a text that starts with a URL line is that line.
proof fn lemma_link_first(g: Seq<u8>, rest: Seq<u8>)
    requires
        g.len() > 0,
        g.last() == LF,
        ({
            let t = link_laws::tail_tokens(g);
            let q = assemble::next_content(t, 0);
            q < t.len() && !assemble::is_title(t[q])
        }),
    ensures
        ({
            let t = link_laws::tail_tokens(g + rest);
            let q = assemble::next_content(t, 0);
            q < t.len() && !assemble::is_title(t[q])
        }),
{
    let x = g + rest;
    let tg = link_laws::tail_tokens(g);
    let tr = tag_sections::tokens_behind(tag_sections::scan_behind(g), rest);
    pieces::lemma_joined(g, 0, rest);
    pieces::lemma_tokens_join(pieces::at_start(), pieces::rows_of(g), pieces::rows_of(rest));
    let t = link_laws::tail_tokens(x);
    assert(t == tg + tr);
    let full = assemble::has_content();
    let q = assemble::next_content(tg, 0);
    assemble::lemma_next_content(tg, 0);
    assert forall|k: int| 0 <= k < q implies !full(#[trigger] t[k]) by {
        assert(t[k] == tg[k]);
    }
    assert(t[q] == tg[q] && full(t[q]));
    bytes::lemma_find_from_is(t, full, 0, q);
}

} // verus!
