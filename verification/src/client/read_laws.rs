//! What is shown of a note, and what a window of its lines holds.

use vstd::prelude::*;

use crate::bytes;
use crate::client::read;
use crate::error::NbErrorView;
use crate::fingerprint;
use crate::line_laws;
use crate::lines;
use crate::parser;
use crate::parser::document;
use crate::parser::document::{DocumentKind, DocumentView};
use crate::path_laws;
use crate::paths;
use crate::paths::Place;
use crate::text;
use crate::text_laws;
use crate::transaction::index;
use crate::transaction::resolve_laws;
use crate::types::{NoteLineHit, ShowNote, ShowNoteLines};

verus! {

/// A window starts at a line of the body, or right behind the last; any other start is refused
/// with the window that was asked for. Without an offset it starts at the first line, and
/// without a limit it holds up to a hundred lines.
pub proof fn law_window_starts_in_the_body(
    body: Seq<u8>,
    offset: Option<u32>,
    limit: Option<u32>,
)
    requires
        lines::models(body).len() <= u32::MAX,
    ensures
        ({
            let total = lines::models(body).len();
            let first = if offset is Some {
                offset->Some_0
            } else {
                1
            };
            let size = if limit is Some {
                limit->Some_0
            } else {
                100
            };
            &&& read::window_of(body, offset, limit) is Ok <==> 1 <= first <= total + 1
            &&& read::window_of(body, offset, limit) matches Ok(w) ==> w.offset == first && w.limit
                == size && w.total_lines == total
            &&& read::window_of(body, offset, limit) matches Err(e) ==> e
                == (NbErrorView::InvalidLineWindow {
                offset: first,
                limit: size,
                total_lines: total as u32,
            })
        }),
{
}

/// An accepted window holds exactly the lines from its offset on, as many as its limit allows
/// and the body has: the first is the line with the number of the offset, and each next the
/// line behind it, with its number, its anchor and its text. A window with a next offset is
/// followed by the line with that number; a window without one ends with the last line.
pub proof fn law_window_holds_its_lines(body: Seq<u8>, offset: Option<u32>, limit: Option<u32>)
    requires
        lines::models(body).len() < u32::MAX,
        read::window_of(body, offset, limit) is Ok,
    ensures
        ({
            let all = lines::models(body);
            let w = read::window_of(body, offset, limit)->Ok_0;
            let left = all.len() - (w.offset - 1);
            &&& w.lines.len() == (if w.limit <= left {
                w.limit as int
            } else {
                left
            })
            &&& forall|k: int|
                0 <= k < w.lines.len() ==> {
                    let line = all[w.offset - 1 + k];
                    &&& (#[trigger] w.lines[k]).number == w.offset + k
                    &&& w.lines[k].anchor == line.anchor
                    &&& w.lines[k].text == text::lossy_text(
                        body.subrange(line.text.start, line.text.end),
                    )
                }
            &&& w.next_offset is Some ==> w.next_offset->Some_0 == w.offset + w.lines.len()
                && w.next_offset->Some_0 <= all.len()
            &&& w.next_offset is None ==> w.offset - 1 + w.lines.len() == all.len()
            &&& w.next_offset is None && w.lines.len() > 0 ==> w.lines.last().number == all.len()
        }),
{
    let all = lines::models(body);
    let w = read::window_of(body, offset, limit)->Ok_0;
    assert forall|k: int| 0 <= k < w.lines.len() implies {
        let line = all[w.offset - 1 + k];
        &&& (#[trigger] w.lines[k]).number == w.offset + k
        &&& w.lines[k].anchor == line.anchor
        &&& w.lines[k].text == text::lossy_text(body.subrange(line.text.start, line.text.end))
    } by {
        let line = all[w.offset - 1 + k];
        lines::lemma_models(body, w.offset - 1 + k);
        assert(bytes::slice_of(body, line.text) =~= body.subrange(
            line.text.start,
            line.text.end,
        ));
    }
}

/// A window tells how the lines of the body end, and whether the last of them does.
pub proof fn law_window_tells_the_ending(
    body: Seq<u8>,
    eol: Seq<u8>,
    offset: Option<u32>,
    limit: Option<u32>,
)
    requires
        line_laws::lines_end_with(body, eol),
        body.len() > 0,
        read::window_of(body, offset, limit) is Ok,
    ensures
        ({
            let w = read::window_of(body, offset, limit)->Ok_0;
            &&& w.has_final_eol <==> line_laws::last_line_ended(body, eol)
            &&& w.eol is None <==> forall|i: int| 0 <= i < body.len() ==> #[trigger] body[i] != 10
            &&& w.eol is Some ==> crate::types::eol_bytes(w.eol->Some_0) == eol
        }),
{
    line_laws::lemma_last_ended(body, eol);
    line_laws::lemma_ending(body, eol);
    line_laws::law_first_feed_declares(body, 0);
}

/// What is shown of a note is the note: its source and its body are the bytes of the file and
/// of its body, its fingerprint is that of the body that is shown, and it is shown at its path.
pub proof fn law_shown_note_is_the_note(
    notebook: Seq<char>,
    selector: Seq<char>,
    rel: Seq<char>,
    source: Seq<u8>,
    index: Option<Vec<u8>>,
)
    requires
        read::shown_note(notebook, selector, rel, source, index) is Ok,
    ensures
        ({
            let x = read::shown_note(notebook, selector, rel, source, index)->Ok_0;
            let doc = read::shown_document(source, rel)->Ok_0;
            &&& read::shown_document(source, rel) is Ok
            &&& doc.source == source
            &&& x.path == rel
            &&& x.kind == doc.partition.kind
            &&& x.todo_state == doc.todo_state()
            &&& vstd::utf8::encode_utf8(x.source) == source
            &&& vstd::utf8::encode_utf8(x.body) == doc.body()
            &&& x.fingerprint == fingerprint::blake3_hex(vstd::utf8::encode_utf8(x.body))
            &&& x.title is Some <==> doc.partition.title is Some
            &&& x.title matches Some(t) ==> vstd::utf8::encode_utf8(t) == source.subrange(
                doc.partition.title->Some_0.start,
                doc.partition.title->Some_0.end,
            )
            &&& x.body_contiguous <==> x.body_fragments.len() <= 1
            &&& x.tags.len() == doc.tag_spans().len()
        }),
{
    let x = read::shown_note(notebook, selector, rel, source, index)->Ok_0;
    let doc = read::shown_document(source, rel)->Ok_0;
    vstd::utf8::decode_utf8_encode_utf8(source);
    vstd::utf8::decode_utf8_encode_utf8(doc.body());
    if let Some(r) = doc.partition.title {
        vstd::utf8::decode_utf8_encode_utf8(bytes::slice_of(source, r));
        assert(bytes::slice_of(source, r) =~= source.subrange(r.start, r.end));
    }
}

/// The pieces of a body that are shown are the bytes of the file from where each says that it
/// starts to where it says that it ends, numbered from zero.
pub proof fn law_shown_pieces_are_in_place(
    notebook: Seq<char>,
    selector: Seq<char>,
    rel: Seq<char>,
    source: Seq<u8>,
    index: Option<Vec<u8>>,
    k: int,
)
    requires
        read::shown_note(notebook, selector, rel, source, index) is Ok,
        0 <= k < read::shown_note(
            notebook,
            selector,
            rel,
            source,
            index,
        )->Ok_0.body_fragments.len(),
        ({
            let v = read::shown_document(source, rel)->Ok_0.partition.bodies;
            &&& v.len() <= u32::MAX
            &&& 0 <= v[k].start <= v[k].end <= source.len() <= u32::MAX
        }),
    ensures
        ({
            let x = read::shown_note(notebook, selector, rel, source, index)->Ok_0;
            let f = x.body_fragments[k];
            let r = read::shown_document(source, rel)->Ok_0.partition.bodies[k];
            &&& f.index == k
            &&& f.start_byte == r.start
            &&& f.end_byte == r.end
            &&& vstd::utf8::encode_utf8(f.text) == source.subrange(
                f.start_byte as int,
                f.end_byte as int,
            )
        }),
{
    let r = read::shown_document(source, rel)->Ok_0.partition.bodies[k];
    vstd::utf8::decode_utf8_encode_utf8(bytes::slice_of(source, r));
    assert(bytes::slice_of(source, r) =~= source.subrange(r.start, r.end));
}

/// A note that is listed is shown with its id, and under the selector that names its line; one
/// that is not listed is shown under the selector that was asked for.
pub proof fn law_shown_selector_names_the_line(
    notebook: Seq<char>,
    selector: Seq<char>,
    folder: Seq<char>,
    name: Seq<char>,
    id: u32,
)
    requires
        !name.contains('/'),
    ensures
        read::selector_for(notebook, resolve_laws::inside(folder, name), Some(id), selector)
            == notebook + seq![':'] + resolve_laws::inside(folder, text::decimal(id as nat)),
        read::selector_for(notebook, resolve_laws::inside(folder, name), None, selector)
            == selector,
{
    reveal_strlit(":");
    reveal_strlit("/");
    assert(":"@ =~= seq![':']);
    assert("/"@ =~= seq!['/']);
    path_laws::law_path_splits_at_the_last_slash(folder, name);
    let rel = resolve_laws::inside(folder, name);
    paths::lemma_last_index(rel, '/');
    let d = text::decimal(id as nat);
    if folder.len() > 0 {
        assert(rel[folder.len() as int] == '/');
        assert(paths::last_index(rel, '/') >= 0);
        assert(notebook + ":"@ + folder + "/"@ + d =~= notebook + seq![':'] + (folder + seq!['/']
            + d));
    } else {
        let at = paths::last_index(rel, '/');
        if at >= 0 {
            assert(name[at] == '/');
            assert(name.contains('/'));
        }
    }
}

/// A shown note has the id under which its base name is listed in the index of its folder.
pub proof fn law_shown_id_is_the_listed_one(
    index: Vec<u8>,
    folder: Seq<char>,
    name: Seq<char>,
)
    requires
        !name.contains('/'),
    ensures
        read::id_in(Some(index), resolve_laws::inside(folder, name)) == index::listed_id(
            index@,
            name,
        ),
        read::id_in(None, resolve_laws::inside(folder, name)) is None,
{
    reveal_strlit("/");
    assert("/"@ =~= seq!['/']);
    path_laws::law_path_splits_at_the_last_slash(folder, name);
}

/// The text of a title line is the title without the marks of the heading, the line feed and
/// the white space around it.
pub proof fn law_title_text_is_bare(
    level: nat,
    gap: Seq<char>,
    title: Seq<char>,
    behind: Seq<char>,
    feeds: nat,
)
    requires
        title.len() > 0,
        text_laws::bare(title),
        title[0] != '#',
        text_laws::blank(gap),
        text_laws::blank(behind),
        behind.len() > 0 ==> behind.last() != '\n',
    ensures
        read::title_text(
            vstd::utf8::encode_utf8(
                Seq::new(level, |i: int| '#') + gap + title + behind + Seq::new(
                    feeds,
                    |i: int| '\n',
                ),
            ),
        ) == title,
{
    let marks = Seq::new(level, |i: int| '#');
    let ends = Seq::new(feeds, |i: int| '\n');
    let line = marks + gap + title + behind;
    let all = line + ends;
    text::lemma_lossy_of_text(all);
    text_laws::law_ascii_white_space('\n');
    assert(line.last() == (if behind.len() > 0 {
        behind.last()
    } else {
        title.last()
    }));
    assert(line.last() != '\n');
    lemma_feeds_stripped(line, feeds);
    let rest = gap + title + behind;
    text_laws::law_ascii_white_space('#');
    assert(rest[0] != '#') by {
        if gap.len() > 0 {
            assert(text::whitespace(gap[0]));
            assert(rest[0] == gap[0]);
        } else {
            assert(rest[0] == title[0]);
        }
    }
    assert(line =~= marks + rest);
    assert(line[level as int] == rest[0]);
    bytes::lemma_find_from_is(line, paths::not_char('#'), 0, level as int);
    assert(line.skip(level as int) =~= rest);
    text_laws::law_trimming_takes_white_space(gap, title, behind);
}

proof fn lemma_feeds_stripped(line: Seq<char>, n: nat)
    requires
        line.len() > 0,
        line.last() != '\n',
    ensures
        paths::strip_trailing(line + Seq::new(n, |i: int| '\n'), '\n') == line,
    decreases n,
{
    let all = line + Seq::new(n, |i: int| '\n');
    if n == 0 {
        assert(all =~= line);
    } else {
        assert(all.last() == '\n');
        assert(all.drop_last() =~= line + Seq::new((n - 1) as nat, |i: int| '\n'));
        lemma_feeds_stripped(line, (n - 1) as nat);
    }
}

/// The tags that are shown are those of the document, one for one, without `#`s in front.
pub proof fn law_shown_tags_are_the_tags(doc: DocumentView, k: int)
    requires
        0 <= k < doc.tag_spans().len(),
    ensures
        read::tag_texts(doc).len() == doc.tag_spans().len(),
        ({
            let t = text::lossy_text(bytes::slice_of(doc.source, doc.tag_spans()[k]));
            t.len() > 0 && t[0] != '#' ==> read::tag_texts(doc)[k] == t
        }),
{
    let t = text::lossy_text(bytes::slice_of(doc.source, doc.tag_spans()[k]));
    let v = document::slices(doc.source, doc.tag_spans());
    assert(v[k] == bytes::slice_of(doc.source, doc.tag_spans()[k]));
    if t.len() > 0 && t[0] != '#' {
        bytes::lemma_find_from_is(t, paths::not_char('#'), 0, 0);
        assert(t.skip(0) =~= t);
    }
}

/// A path below the root of a notebook is told by what follows the root and one separator; any
/// other path is not in the notebook.
pub proof fn law_path_below_the_root(root: Place, path: Seq<char>)
    requires
        root.path.len() > 0,
        root.path.last() != root.separator,
    ensures
        read::below(root, root.path + seq![root.separator] + path) == Some(path),
        read::below(root, root.path) == Some(Seq::<char>::empty()),
        read::below(root, path) is Some ==> path == root.path || (root.path + seq![
            root.separator,
        ]).is_prefix_of(path),
{
    let inside = root.path.push(root.separator);
    let whole = root.path + seq![root.separator] + path;
    assert(inside =~= whole.take(inside.len() as int));
    assert(whole.skip(inside.len() as int) =~= path);
    assert(whole.len() > root.path.len());
    assert(inside =~= root.path + seq![root.separator]);
}

/// A file is shown as what its name says it is, and as a note where its name is that of no
/// format that can be parsed.
pub proof fn law_file_of_any_name_is_shown(source: Seq<u8>, path: Seq<char>)
    ensures
        parser::parsed_at(source, path) is Ok ==> read::shown_document(source, path)
            == parser::parsed_at(source, path),
        parser::parsed_at(source, path) matches Err(e) && e is UnsupportedDocumentFormat
            ==> read::shown_document(source, path) == parser::parsed_as(source, DocumentKind::Note)
            && read::shown_document(source, path) is Ok,
        parser::parsed_at(source, path) matches Err(e) && !(e is UnsupportedDocumentFormat)
            ==> read::shown_document(source, path) == parser::parsed_at(source, path),
{
}

/// A file that is not UTF-8 is not shown, and the refusal tells its selector, its path and its
/// kind.
pub proof fn law_other_bytes_are_not_shown(
    notebook: Seq<char>,
    selector: Seq<char>,
    rel: Seq<char>,
    source: Seq<u8>,
    index: Option<Vec<u8>>,
)
    requires
        read::shown_document(source, rel) is Ok,
        !vstd::utf8::valid_utf8(source),
    ensures
        ({
            let kind = read::shown_document(source, rel)->Ok_0.partition.kind;
            read::shown_note(notebook, selector, rel, source, index) matches Err(
                NbErrorView::NonUtf8 { selector: s, path, kind: word, mime_hint },
            ) && s == selector && path == rel && word == (match kind {
                DocumentKind::Note => "note"@,
                DocumentKind::Todo => "todo"@,
                DocumentKind::Bookmark => "bookmark"@,
            })
        }),
{
}

/// A window is told by its fields: one line of the model for each line that is shown, with its
/// number, its anchor and its text.
pub proof fn law_window_is_told_by_its_fields(w: ShowNoteLines, k: int)
    ensures
        ({
            let m = read::window_view(w);
            &&& m.total_lines == w.total_lines
            &&& m.offset == w.offset
            &&& m.limit == w.limit
            &&& m.next_offset == w.next_offset
            &&& m.eol == w.eol
            &&& m.has_final_eol == w.has_final_eol
            &&& m.lines.len() == w.lines@.len()
            &&& 0 <= k < w.lines@.len() ==> m.lines[k].number == w.lines@[k].number
                && m.lines[k].anchor == w.lines@[k].anchor@ && m.lines[k].text
                == w.lines@[k].text@
        }),
{
}

/// A shown note is told by its fields.
pub proof fn law_shown_note_is_told_by_its_fields(n: ShowNote, k: int)
    ensures
        ({
            let m = read::shown_view(n);
            &&& m.selector == n.selector@
            &&& m.path == n.path@
            &&& m.kind == n.kind
            &&& m.todo_state == n.todo_state
            &&& m.title is Some <==> n.title is Some
            &&& n.title matches Some(t) ==> m.title == Some(t@)
            &&& m.title_text is Some <==> n.title_text is Some
            &&& n.title_text matches Some(t) ==> m.title_text == Some(t@)
            &&& m.tags.len() == n.tags@.len()
            &&& 0 <= k < n.tags@.len() ==> m.tags[k] == n.tags@[k]@
            &&& m.body_fragments.len() == n.body_fragments@.len()
            &&& 0 <= k < n.body_fragments@.len() ==> m.body_fragments[k].text
                == n.body_fragments@[k].bytes@ && m.body_fragments[k].index
                == n.body_fragments@[k].index && m.body_fragments[k].start_byte
                == n.body_fragments@[k].start_byte && m.body_fragments[k].end_byte
                == n.body_fragments@[k].end_byte
            &&& m.body_contiguous == n.body_contiguous
            &&& m.body == n.body@
            &&& m.fingerprint == n.fingerprint@
            &&& m.source == n.source@
            &&& m.numeric_id == n.numeric_id
        }),
{
}

/// A hit of a search is told by its fields.
pub proof fn law_hit_is_told_by_its_fields(v: Seq<NoteLineHit>, k: int)
    requires
        0 <= k < v.len(),
    ensures
        lines::hit_models(v).len() == v.len(),
        lines::hit_models(v)[k].number == v[k].number,
        lines::hit_models(v)[k].anchor == v[k].anchor@,
        lines::hit_models(v)[k].start_byte == v[k].start_byte,
        lines::hit_models(v)[k].end_byte == v[k].end_byte,
        v[k].text matches Some(t) ==> lines::hit_models(v)[k].text == Some(t@),
        v[k].text is None ==> lines::hit_models(v)[k].text is None,
{
}

} // verus!
