//! What the edits of a document change in it, and what a new document holds.

use vstd::prelude::*;

use crate::bytes;
use crate::error::NbErrorView;
use crate::fingerprint;
use crate::lines;
use crate::parser;
use crate::parser::document::{DocumentKind, DocumentView};
use crate::paths;
use crate::text;
use crate::text_laws;
use crate::transaction::apply;
use crate::transaction::content;
use crate::transaction::plan::Op;

verus! {

/// A checklist item starts at byte `i`: a dash, a space, and a box with one byte in it; at
/// least one byte follows.
pub open spec fn item_at(b: Seq<u8>, i: int) -> bool {
    &&& 0 <= i
    &&& i + 5 < b.len()
    &&& b[i] == 45 && b[i + 1] == 32 && b[i + 2] == 91 && b[i + 4] == 93
}

/// How many checklist items start in `[from, to)`.
pub open spec fn items_between(b: Seq<u8>, from: int, to: int) -> nat
    decreases to - from,
{
    if from >= to {
        0
    } else if item_at(b, from) {
        1 + items_between(b, from + 1, to)
    } else {
        items_between(b, from + 1, to)
    }
}

proof fn lemma_items_behind(b: Seq<u8>, from: int, to: int)
    requires
        0 <= from,
        from + 5 >= b.len(),
    ensures
        items_between(b, from, to) == 0,
    decreases to - from,
{
    if from < to {
        lemma_items_behind(b, from + 1, to);
    }
}

proof fn lemma_nth_item(b: Seq<u8>, i: int, n: nat)
    requires
        0 <= i,
        n > 0,
    ensures
        content::nth_task(b, i, n) matches Some(at) ==> i <= at && item_at(b, at) && items_between(
            b,
            i,
            at,
        ) == n - 1,
        content::nth_task(b, i, n) is None ==> items_between(b, i, b.len() as int) < n,
    decreases b.len() - i,
{
    if i + 5 >= b.len() {
        lemma_items_behind(b, i, b.len() as int);
    } else if content::task_at(b, i) {
        if n > 1 {
            lemma_nth_item(b, i + 1, (n - 1) as nat);
        }
    } else {
        lemma_nth_item(b, i + 1, n);
    }
}

/// Setting the state of the checklist item with a number, counted from one, writes its box and
/// nothing else: the item with that many items before it has an `x` in its box when it is done
/// and a space when it is open, and every other byte stays. A number with no item is refused.
pub proof fn law_numbered_item_is_set(b: Seq<u8>, path: Seq<char>, done: bool, n: u32)
    requires
        parser::parsed_at(b, path) matches Ok(doc) && doc.partition.kind == DocumentKind::Todo,
    ensures
        content::state_set(b, path, done, Some(n)) is Ok <==> 1 <= n <= items_between(
            b,
            0,
            b.len() as int,
        ),
        content::state_set(b, path, done, Some(n)) matches Ok(r) ==> exists|at: int|
            {
                &&& #[trigger] item_at(b, at)
                &&& items_between(b, 0, at) == n - 1
                &&& r == b.update(
                    at + 3,
                    if done {
                        120u8
                    } else {
                        32u8
                    },
                )
            },
{
    if n > 0 {
        lemma_nth_item(b, 0, n as nat);
        match content::nth_task(b, 0, n as nat) {
            Some(at) => {
                assert(item_at(b, at));
                lemma_items_split(b, 0, at, b.len() as int);
            },
            None => {},
        }
    }
}

proof fn lemma_items_split(b: Seq<u8>, from: int, at: int, to: int)
    requires
        from <= at < to,
        item_at(b, at),
    ensures
        items_between(b, from, to) > items_between(b, from, at),
    decreases at - from,
{
    if from < at {
        lemma_items_split(b, from + 1, at, to);
    }
}

/// Only a task has a state to set.
pub proof fn law_only_tasks_are_marked(
    b: Seq<u8>,
    path: Seq<char>,
    done: bool,
    task: Option<u32>,
)
    ensures
        content::state_set(b, path, done, task) is Ok ==> (parser::parsed_at(b, path) matches Ok(
            doc,
        ) && doc.partition.kind == DocumentKind::Todo),
{
}

/// Marking sets what unmarking clears: opening the checklist item again that was marked as done
/// gives the task back as it was, where the item was open, and the other way round.
pub proof fn law_unmarking_undoes_marking(b: Seq<u8>, path: Seq<char>, target_b: Seq<u8>, n: u32)
    requires
        content::state_set(b, path, true, Some(n)) == Ok::<Seq<u8>, NbErrorView>(target_b),
        parser::parsed_at(target_b, path) matches Ok(doc) && doc.partition.kind
            == DocumentKind::Todo,
        b[content::nth_task(b, 0, n as nat)->Some_0 + 3] == 32,
    ensures
        content::state_set(target_b, path, false, Some(n)) == Ok::<Seq<u8>, NbErrorView>(b),
{
    if n > 0 {
        lemma_nth_item(b, 0, n as nat);
    }
    let at = content::nth_task(b, 0, n as nat)->Some_0;
    content::law_unmark_undoes_mark(b, n as nat, at);
}

/// A tag without the `#`s in front of it.
pub open spec fn key(tag: Seq<char>) -> Seq<char>
    decreases tag.len(),
{
    if tag.len() > 0 && tag[0] == '#' {
        key(tag.skip(1))
    } else {
        tag
    }
}

pub proof fn lemma_key(tag: Seq<char>)
    ensures
        paths::strip_leading(tag, '#') == key(tag),
    decreases tag.len(),
{
    let p = paths::not_char('#');
    if tag.len() > 0 && tag[0] == '#' {
        let rest = tag.skip(1);
        lemma_key(rest);
        let at = bytes::find_from(rest, p, 0);
        bytes::lemma_find_from(rest, p, 0);
        assert forall|k: int| 0 <= k < at + 1 implies !p(#[trigger] tag[k]) by {
            if k > 0 {
                assert(tag[k] == rest[k - 1]);
            }
        }
        if at < rest.len() {
            assert(tag[at + 1] == rest[at]);
        }
        bytes::lemma_find_from_is(tag, p, 0, at + 1);
        assert(tag.skip(at + 1) =~= rest.skip(at));
    } else {
        bytes::lemma_find_from_is(tag, p, 0, 0);
        assert(tag.skip(0) =~= tag);
    }
}

/// No tag of a list has the key `t`.
pub open spec fn none_has_key(tags: Seq<Seq<char>>, t: Seq<char>) -> bool {
    forall|k: int| 0 <= k < tags.len() ==> key(#[trigger] tags[k]) != t
}

/// The test for a tag that is not among those to remove.
pub open spec fn kept(remove: Seq<Seq<char>>) -> spec_fn(Seq<char>) -> bool {
    |t: Seq<char>| none_has_key(remove, t)
}

proof fn lemma_removed_is_filter(tags: Seq<Seq<char>>, remove: Seq<Seq<char>>, n: int)
    requires
        0 <= n <= remove.len(),
    ensures
        content::tags_removed(tags, remove, n) == tags.filter(kept(remove.take(n))),
    decreases n,
{
    let p = kept(remove.take(n));
    if n == 0 {
        lemma_filter_all(tags, p);
    } else {
        let q = kept(remove.take(n - 1));
        let o = content::other_than(paths::strip_leading(remove[n - 1], '#'));
        lemma_removed_is_filter(tags, remove, n - 1);
        lemma_key(remove[n - 1]);
        assert forall|t: Seq<char>| #[trigger] p(t) == (q(t) && o(t)) by {
            if p(t) {
                assert(key(remove.take(n)[n - 1]) != t);
                assert forall|k: int| 0 <= k < n - 1 implies key(#[trigger] remove.take(n - 1)[k])
                    != t by {
                    assert(remove.take(n)[k] == remove.take(n - 1)[k]);
                }
            }
            if q(t) && o(t) {
                assert forall|k: int| 0 <= k < n implies key(#[trigger] remove.take(n)[k]) != t by {
                    if k < n - 1 {
                        assert(remove.take(n)[k] == remove.take(n - 1)[k]);
                    }
                }
            }
        }
        lemma_filter_twice(tags, q, o, p);
    }
}

proof fn lemma_filter_all(v: Seq<Seq<char>>, p: spec_fn(Seq<char>) -> bool)
    requires
        forall|t: Seq<char>| #[trigger] p(t),
    ensures
        v.filter(p) == v,
    decreases v.len(),
{
    reveal(Seq::filter);
    if v.len() > 0 {
        lemma_filter_all(v.drop_last(), p);
        assert(v.drop_last().push(v.last()) =~= v);
    }
}

proof fn lemma_filter_twice(
    v: Seq<Seq<char>>,
    q: spec_fn(Seq<char>) -> bool,
    o: spec_fn(Seq<char>) -> bool,
    p: spec_fn(Seq<char>) -> bool,
)
    requires
        forall|t: Seq<char>| #[trigger] p(t) == (q(t) && o(t)),
    ensures
        v.filter(q).filter(o) == v.filter(p),
    decreases v.len(),
{
    reveal(Seq::filter);
    if v.len() > 0 {
        let init = v.drop_last();
        lemma_filter_twice(init, q, o, p);
        assert(p(v.last()) == (q(v.last()) && o(v.last())));
        if q(v.last()) {
            let w = init.filter(q).push(v.last());
            assert(w.drop_last() =~= init.filter(q));
            assert(w.last() == v.last());
        }
    }
}

/// A tag edit keeps every tag that is not removed, in order and in front; behind them stand the
/// added tags that were missing, each once, in the order in which they were given.
pub proof fn law_other_tags_stay(
    tags: Seq<Seq<char>>,
    add: Seq<Seq<char>>,
    remove: Seq<Seq<char>>,
)
    ensures
        ({
            let stay = tags.filter(kept(remove));
            let all = content::tags_edited(tags, add, remove);
            &&& stay.is_prefix_of(all)
            &&& forall|i: int|
                stay.len() <= i < all.len() ==> !none_has_key(add, #[trigger] all[i])
            &&& forall|i: int, j: int|
                0 <= i < j < all.len() && stay.len() <= j ==> #[trigger] all[i] != #[trigger] all[j]
            &&& forall|k: int|
                0 <= k < add.len() ==> all.contains(key(#[trigger] add[k]))
        }),
{
    let n = remove.len() as int;
    lemma_removed_is_filter(tags, remove, n);
    assert(remove.take(n) =~= remove);
    let stay = tags.filter(kept(remove));
    lemma_added_shape(stay, add, add.len() as int);
    content::law_tags_are_edited(tags, add, remove);
    let all = content::tags_edited(tags, add, remove);
    assert forall|k: int| 0 <= k < add.len() implies all.contains(key(#[trigger] add[k])) by {
        lemma_key(add[k]);
        assert(all.contains(paths::strip_leading(add[k], '#')));
    }
}

proof fn lemma_added_shape(stay: Seq<Seq<char>>, add: Seq<Seq<char>>, n: int)
    requires
        0 <= n <= add.len(),
    ensures
        ({
            let all = content::tags_added(stay, add, n);
            &&& stay.is_prefix_of(all)
            &&& forall|i: int|
                stay.len() <= i < all.len() ==> !none_has_key(add, #[trigger] all[i])
            &&& forall|i: int, j: int|
                0 <= i < j < all.len() && stay.len() <= j ==> #[trigger] all[i] != #[trigger] all[j]
        }),
    decreases n,
{
    let all = content::tags_added(stay, add, n);
    if n == 0 {
        assert(stay =~= all.take(stay.len() as int));
    } else {
        lemma_added_shape(stay, add, n - 1);
        lemma_key(add[n - 1]);
        let before = content::tags_added(stay, add, n - 1);
        assert(stay =~= before.take(stay.len() as int));
        if !before.contains(key(add[n - 1])) {
            assert(all == before.push(key(add[n - 1])));
            assert(stay =~= all.take(stay.len() as int));
            assert forall|i: int| stay.len() <= i < all.len() implies !none_has_key(
                add,
                #[trigger] all[i],
            ) by {
                if i < before.len() {
                    assert(all[i] == before[i]);
                } else {
                    assert(key(add[n - 1]) == all[i]);
                }
            }
            assert forall|i: int, j: int|
                0 <= i < j < all.len() && stay.len() <= j implies #[trigger] all[i]
                != #[trigger] all[j] by {
                assert(all[i] == before[i]);
                if j < before.len() {
                    assert(all[j] == before[j]);
                }
            }
        }
    }
}

/// A tag is written behind one `#`, which it keeps if it has it.
pub proof fn law_tag_is_written_behind_hash(tag: Seq<char>)
    ensures
        tag.len() > 0 && tag[0] == '#' ==> content::tag_text(tag) == tag,
        !(tag.len() > 0 && tag[0] == '#') ==> content::tag_text(tag) == seq!['#'] + tag,
{
    reveal_strlit("#");
    assert("#"@ =~= seq!['#']);
}

/// The words of a line: each behind the one before it and a space.
pub open spec fn spaced(words: Seq<Seq<char>>) -> Seq<char>
    decreases words.len(),
{
    if words.len() == 0 {
        Seq::empty()
    } else if words.len() == 1 {
        words[0]
    } else {
        spaced(words.drop_last()) + seq![' '] + words.last()
    }
}

proof fn lemma_spaced(words: Seq<Seq<char>>)
    ensures
        text::join(words, " "@) == spaced(words),
    decreases words.len(),
{
    reveal_strlit(" ");
    assert(" "@ =~= seq![' ']);
    if words.len() > 1 {
        lemma_spaced(words.drop_last());
    }
}

/// Each tag behind its `#`.
pub open spec fn hashed_words(tags: Seq<Seq<char>>) -> Seq<Seq<char>> {
    tags.map_values(
        |t: Seq<char>|
            if t.len() > 0 && t[0] == '#' {
                t
            } else {
                seq!['#'] + t
            },
    )
}

/// A new note is its title as a heading, its tags on a line, and its content, with an empty
/// line behind each of the first two; a note without title and tags is its content.
pub proof fn law_new_note_is_its_parts(
    title: Seq<char>,
    content_text: Seq<char>,
    tags: Seq<Seq<char>>,
)
    ensures
        ({
            let none = Seq::<Seq<char>>::empty();
            &&& content::note_text(None, content_text, none) == content_text
            &&& content::note_text(Some(title), content_text, tags) == seq!['#', ' '] + title + seq![
                '\n',
                '\n',
            ] + content::note_text(None, content_text, tags)
            &&& tags.len() > 0 ==> content::note_text(None, content_text, tags) == spaced(
                hashed_words(tags),
            ) + seq!['\n', '\n'] + content_text
        }),
{
    reveal_strlit("");
    reveal_strlit("# ");
    reveal_strlit("\n\n");
    let none = Seq::<Seq<char>>::empty();
    assert("# "@ =~= seq!['#', ' ']);
    assert("\n\n"@ =~= seq!['\n', '\n']);
    assert(""@ =~= Seq::<char>::empty());
    assert(content::note_text(None, content_text, none) =~= content_text);
    let words = tags.map_values(|t: Seq<char>| content::tag_text(t));
    assert(words =~= hashed_words(tags)) by {
        assert forall|k: int| 0 <= k < tags.len() implies #[trigger] words[k] == hashed_words(
            tags,
        )[k] by {
            law_tag_is_written_behind_hash(tags[k]);
        }
    }
    lemma_spaced(words);
    assert(content::note_text(Some(title), content_text, tags) =~= seq!['#', ' '] + title + seq![
        '\n',
        '\n',
    ] + content::note_text(None, content_text, tags));
    if tags.len() > 0 {
        assert(content::note_text(None, content_text, tags) =~= spaced(hashed_words(tags)) + seq![
            '\n',
            '\n',
        ] + content_text);
    }
}

/// The new source of a document whose body is in one piece, where a body takes the place of
/// its old one; a document without a body gets it at its end.
pub open spec fn with_body(doc: DocumentView, body: Seq<u8>) -> Seq<u8> {
    if doc.partition.bodies.len() == 0 {
        doc.source + body
    } else {
        doc.source.take(doc.partition.bodies[0].start) + body + doc.source.skip(
            doc.partition.bodies[0].end,
        )
    }
}

/// Replacing a body puts the new one in the place of the old, provided that the old one is the
/// one that was read: its fingerprint is that of its bytes.
pub proof fn law_body_is_replaced(
    op: Op,
    path: Seq<char>,
    b: Seq<u8>,
    doc: DocumentView,
)
    requires
        op is ReplaceNoteBody,
        parser::parsed_at(b, path) == Ok::<DocumentView, NbErrorView>(doc),
        doc.partition.bodies.len() < 2,
    ensures
        op->ReplaceNoteBody_fingerprint == fingerprint::blake3_hex(doc.body())
            ==> apply::new_source(op, path, b) == Ok::<Seq<u8>, NbErrorView>(
            with_body(doc, vstd::utf8::encode_utf8(op->new_body)),
        ),
        op->ReplaceNoteBody_fingerprint != fingerprint::blake3_hex(doc.body())
            ==> apply::new_source(op, path, b) is Err,
{
}

/// An edit of a body by lines or by occurrences puts the edited body in the place of the old;
/// where the edit is refused, nothing is edited.
pub proof fn law_body_is_edited(op: Op, path: Seq<char>, b: Seq<u8>, doc: DocumentView)
    requires
        parser::parsed_at(b, path) == Ok::<DocumentView, NbErrorView>(doc),
        doc.partition.bodies.len() < 2,
    ensures
        op matches Op::EditNoteLines { target, edits } ==> match lines::edited(doc.body(), edits) {
            Ok(body) => apply::new_source(op, path, b) == Ok::<Seq<u8>, NbErrorView>(
                with_body(doc, body),
            ),
            Err(e) => apply::new_source(op, path, b) == Err::<Seq<u8>, NbErrorView>(e),
        },
        op matches Op::EditNoteSubstring {
            target,
            pattern,
            replacement,
            occurrence,
            expected_count,
            fingerprint,
        } ==> (fingerprint is None || fingerprint->Some_0 == fingerprint::blake3_hex(doc.body())
            ==> match lines::substituted(
            doc.body(),
            vstd::utf8::encode_utf8(pattern),
            vstd::utf8::encode_utf8(replacement),
            occurrence,
            expected_count,
        ) {
            Ok(body) => apply::new_source(op, path, b) == Ok::<Seq<u8>, NbErrorView>(
                with_body(doc, body),
            ),
            Err(e) => apply::new_source(op, path, b) == Err::<Seq<u8>, NbErrorView>(e),
        }),
{
}

/// A body in several pieces is not edited.
pub proof fn law_fragmented_body_is_not_edited(
    op: Op,
    path: Seq<char>,
    b: Seq<u8>,
    doc: DocumentView,
)
    requires
        op is ReplaceNoteBody || op is EditNoteLines || op is EditNoteSubstring,
        parser::parsed_at(b, path) == Ok::<DocumentView, NbErrorView>(doc),
        doc.partition.bodies.len() >= 2,
    ensures
        apply::new_source(op, path, b) matches Err(
            NbErrorView::FragmentedBody { fragment_count, guidance },
        ),
{
}

/// A retitled document has the new title as a heading on its title line, and everything else
/// stays; a document without a title line gets it in front, set apart from what follows by a
/// line feed unless one is there already.
pub proof fn law_title_is_replaced(
    op: Op,
    path: Seq<char>,
    b: Seq<u8>,
    doc: DocumentView,
    title: Seq<char>,
)
    requires
        op matches Op::RetitleNote { target, title: t } && t == title,
        parser::parsed_at(b, path) == Ok::<DocumentView, NbErrorView>(doc),
        title.len() > 0,
        title.last() != '\n',
    ensures
        ({
            let heading = if title[0] == '#' {
                title
            } else {
                seq!['#', ' '] + title
            };
            let line = vstd::utf8::encode_utf8(heading + seq!['\n']);
            apply::new_source(op, path, b) matches Ok(r) && match doc.partition.title {
                Some(x) => r == b.take(x.start) + line + b.skip(x.end),
                None => r == (if b.len() == 0 || b[0] == 10 {
                    line + b
                } else {
                    line + seq![10u8] + b
                }),
            }
        }),
{
    reveal_strlit("# ");
    assert("# "@ =~= seq!['#', ' ']);
    let heading = apply::heading_line(title);
    let h = vstd::utf8::encode_utf8(heading);
    text::lemma_encode_concat(heading, seq!['\n']);
    lemma_feed();
    lemma_last_is_no_feed(heading);
    assert(vstd::utf8::encode_utf8(heading + seq!['\n']) =~= h.push(10u8));
    assert(lines::title_line(h) == h.push(10u8));
    let r = apply::new_source(op, path, b)->Ok_0;
    match doc.partition.title {
        Some(x) => {},
        None => {
            assert(r =~= h.push(10u8) + b || r =~= h.push(10u8) + seq![10u8] + b);
        },
    }
}

proof fn lemma_feed()
    ensures
        vstd::utf8::encode_utf8(seq!['\n']) == seq![10u8],
{
    let s = seq!['\n'];
    vstd::utf8::is_ascii_chars_encode_utf8(s);
    assert(vstd::utf8::encode_utf8(s) =~= seq![10u8]);
}

/// A text that does not end with a line feed does not end with the byte of one.
proof fn lemma_last_is_no_feed(s: Seq<char>)
    requires
        s.len() > 0,
        s.last() != '\n',
    ensures
        vstd::utf8::encode_utf8(s).len() > 0,
        vstd::utf8::encode_utf8(s).last() != 10,
{
    let one = seq![s.last()];
    text::lemma_encode_concat(s.drop_last(), one);
    assert(s.drop_last() + one =~= s);
    if one.contains('\n') {
        assert(one[0] == s.last());
    }
    text::lemma_encode_without(one, '\n');
    let e = vstd::utf8::encode_utf8(one);
    reveal_with_fuel(vstd::utf8::encode_utf8, 2);
    assert(one.drop_first() =~= Seq::<char>::empty());
    assert(e.len() > 0);
    assert(e.contains(e.last()));
    assert('\n' as u8 == 10u8);
}

/// The checklist of a new task: one open item for each text.
pub open spec fn checklist(tasks: Seq<Seq<char>>) -> Seq<char>
    decreases tasks.len(),
{
    if tasks.len() == 0 {
        Seq::empty()
    } else {
        checklist(tasks.drop_last()) + seq!['-', ' ', '[', ' ', ']', ' '] + tasks.last() + seq![
            '\n',
        ]
    }
}

proof fn lemma_checklist(tasks: Seq<Seq<char>>)
    ensures
        content::tasks_text(tasks) == checklist(tasks),
    decreases tasks.len(),
{
    reveal_strlit("- [ ] ");
    reveal_strlit("\n");
    reveal_strlit("");
    assert("- [ ] "@ =~= seq!['-', ' ', '[', ' ', ']', ' ']);
    assert("\n"@ =~= seq!['\n']);
    assert(""@ =~= Seq::<char>::empty());
    let f = |t: Seq<char>| "- [ ] "@ + t + "\n"@;
    let items = tasks.map_values(f);
    if tasks.len() > 0 {
        lemma_checklist(tasks.drop_last());
        assert(items.drop_last() =~= tasks.drop_last().map_values(f));
        assert(items.last() == f(tasks.last()));
        assert(content::tasks_text(tasks) =~= checklist(tasks));
    } else {
        assert(content::tasks_text(tasks) =~= checklist(tasks));
    }
}

/// A text with a line feed at its end, which is not doubled.
pub open spec fn with_feed(s: Seq<char>) -> Seq<char> {
    if s.len() > 0 && s.last() == '\n' {
        s
    } else {
        s.push('\n')
    }
}

proof fn lemma_tag_section(tags: Seq<Seq<char>>)
    ensures
        content::tag_section_text(tags) == (if tags.len() > 0 {
            seq!['#', '#', ' ', 'T', 'a', 'g', 's', '\n', '\n'] + spaced(hashed_words(tags)) + seq![
                '\n',
            ]
        } else {
            Seq::empty()
        }),
{
    reveal_strlit("## Tags\n\n");
    reveal_strlit("\n");
    reveal_strlit("");
    assert("## Tags\n\n"@ =~= seq!['#', '#', ' ', 'T', 'a', 'g', 's', '\n', '\n']);
    assert("\n"@ =~= seq!['\n']);
    assert(""@ =~= Seq::<char>::empty());
    let words = tags.map_values(|t: Seq<char>| content::tag_text(t));
    assert(words =~= hashed_words(tags)) by {
        assert forall|k: int| 0 <= k < tags.len() implies #[trigger] words[k] == hashed_words(
            tags,
        )[k] by {
            law_tag_is_written_behind_hash(tags[k]);
        }
    }
    lemma_spaced(words);
}

/// A new task is, one behind the other: its title as a heading, with an open box unless the
/// title has a bracket; a section with one open item for each task; a section with its
/// description; and a section with its tags. A part that is not given leaves nothing.
pub proof fn law_new_task_is_its_parts(
    title: Seq<char>,
    description: Option<Seq<char>>,
    tasks: Seq<Seq<char>>,
    tags: Seq<Seq<char>>,
)
    ensures
        ({
            let r = content::todo_text(title, description, tasks, tags);
            let head = (if exists|k: int| 0 <= k < title.len() && title[k] == '[' {
                seq!['#', ' '] + title
            } else {
                seq!['#', ' ', '[', ' ', ']', ' '] + title
            }) + seq!['\n', '\n'];
            let items = if tasks.len() > 0 {
                seq!['#', '#', ' ', 'T', 'a', 's', 'k', 's', '\n', '\n'] + checklist(tasks)
                    + seq!['\n']
            } else {
                Seq::empty()
            };
            let more = match description {
                Some(d) => seq![
                    '#',
                    '#',
                    ' ',
                    'D',
                    'e',
                    's',
                    'c',
                    'r',
                    'i',
                    'p',
                    't',
                    'i',
                    'o',
                    'n',
                    '\n',
                    '\n',
                ] + with_feed(d) + seq!['\n'],
                None => Seq::empty(),
            };
            let end = if tags.len() > 0 {
                seq!['#', '#', ' ', 'T', 'a', 'g', 's', '\n', '\n'] + spaced(hashed_words(tags))
                    + seq!['\n']
            } else {
                Seq::empty()
            };
            r == head + items + more + end
        }),
{
    reveal_strlit("# ");
    reveal_strlit("# [ ] ");
    reveal_strlit("\n\n");
    reveal_strlit("\n");
    reveal_strlit("");
    reveal_strlit("## Tasks\n\n");
    reveal_strlit("## Description\n\n");
    assert("# "@ =~= seq!['#', ' ']);
    assert("# [ ] "@ =~= seq!['#', ' ', '[', ' ', ']', ' ']);
    assert("\n\n"@ =~= seq!['\n', '\n']);
    assert("\n"@ =~= seq!['\n']);
    assert(""@ =~= Seq::<char>::empty());
    assert("## Tasks\n\n"@ =~= seq!['#', '#', ' ', 'T', 'a', 's', 'k', 's', '\n', '\n']);
    assert("## Description\n\n"@ =~= seq![
        '#',
        '#',
        ' ',
        'D',
        'e',
        's',
        'c',
        'r',
        'i',
        'p',
        't',
        'i',
        'o',
        'n',
        '\n',
        '\n',
    ]);
    lemma_checklist(tasks);
    lemma_tag_section(tags);
    if let Some(d) = description {
        assert(content::ended(d) =~= with_feed(d));
    }
    if title.contains('[') {
        let k = choose|k: int| 0 <= k < title.len() && title[k] == '[';
        assert(title[k] == '[');
    }
}

/// A new bookmark is, one behind the other: its title as a heading; its URL between angle
/// brackets; a section with its comment; and a section with its tags. A part that is not given
/// leaves nothing.
pub proof fn law_new_bookmark_is_its_parts(
    url: Seq<char>,
    title: Option<Seq<char>>,
    tags: Seq<Seq<char>>,
    comment: Option<Seq<char>>,
)
    ensures
        ({
            let head = match title {
                Some(t) => seq!['#', ' '] + t + seq!['\n', '\n'],
                None => Seq::empty(),
            };
            let link = seq!['<'] + url + seq!['>', '\n', '\n'];
            let more = match comment {
                Some(c) => seq![
                    '#',
                    '#',
                    ' ',
                    'C',
                    'o',
                    'n',
                    't',
                    'e',
                    'n',
                    't',
                    '\n',
                    '\n',
                ] + with_feed(c) + seq!['\n'],
                None => Seq::empty(),
            };
            let end = if tags.len() > 0 {
                seq!['#', '#', ' ', 'T', 'a', 'g', 's', '\n', '\n'] + spaced(hashed_words(tags))
                    + seq!['\n']
            } else {
                Seq::empty()
            };
            content::bookmark_text(url, title, tags, comment) == head + link + more + end
        }),
{
    reveal_strlit("# ");
    reveal_strlit("\n\n");
    reveal_strlit("\n");
    reveal_strlit("");
    reveal_strlit("<");
    reveal_strlit(">\n\n");
    reveal_strlit("## Content\n\n");
    assert("# "@ =~= seq!['#', ' ']);
    assert("\n\n"@ =~= seq!['\n', '\n']);
    assert("\n"@ =~= seq!['\n']);
    assert(""@ =~= Seq::<char>::empty());
    assert("<"@ =~= seq!['<']);
    assert(">\n\n"@ =~= seq!['>', '\n', '\n']);
    assert("## Content\n\n"@ =~= seq![
        '#',
        '#',
        ' ',
        'C',
        'o',
        'n',
        't',
        'e',
        'n',
        't',
        '\n',
        '\n',
    ]);
    lemma_tag_section(tags);
    if let Some(c) = comment {
        assert(content::ended(c) =~= with_feed(c));
    }
}

/// The tags of a document are what stands in its tag spans, each without its `#`, in their
/// order. This leaves out documents with a tag that is not UTF-8.
pub proof fn law_document_tags_are_its_spans(doc: DocumentView)
    requires
        forall|k: int|
            0 <= k < doc.tag_spans().len() ==> vstd::utf8::valid_utf8(
                doc.source.subrange(
                    (#[trigger] doc.tag_spans()[k]).start,
                    doc.tag_spans()[k].end,
                ),
            ),
    ensures
        content::document_tags(doc).len() == doc.tag_spans().len(),
        forall|k: int|
            0 <= k < doc.tag_spans().len() ==> content::document_tags(doc)[k] == key(
                vstd::utf8::decode_utf8(
                    doc.source.subrange(
                        (#[trigger] doc.tag_spans()[k]).start,
                        doc.tag_spans()[k].end,
                    ),
                ),
            ),
{
    lemma_readable(doc, doc.tag_spans().len() as int);
}

proof fn lemma_readable(doc: DocumentView, n: int)
    requires
        0 <= n <= doc.tag_spans().len(),
        forall|k: int|
            0 <= k < doc.tag_spans().len() ==> vstd::utf8::valid_utf8(
                doc.source.subrange(
                    (#[trigger] doc.tag_spans()[k]).start,
                    doc.tag_spans()[k].end,
                ),
            ),
    ensures
        ({
            let r = content::readable_tags(
                crate::parser::document::slices(doc.source, doc.tag_spans()),
                n,
            );
            &&& r.len() == n
            &&& forall|k: int|
                0 <= k < n ==> r[k] == key(
                    vstd::utf8::decode_utf8(
                        doc.source.subrange(
                            (#[trigger] doc.tag_spans()[k]).start,
                            doc.tag_spans()[k].end,
                        ),
                    ),
                )
        }),
    decreases n,
{
    if n > 0 {
        lemma_readable(doc, n - 1);
        let x = doc.tag_spans()[n - 1];
        lemma_key(vstd::utf8::decode_utf8(doc.source.subrange(x.start, x.end)));
    }
}

/// Each text behind a `#` of its own.
pub open spec fn behind_hashes(tags: Seq<Seq<char>>) -> Seq<Seq<char>> {
    tags.map_values(|t: Seq<char>| seq!['#'] + t)
}

proof fn lemma_behind_hashes(tags: Seq<Seq<char>>)
    ensures
        content::hashed(tags) == spaced(behind_hashes(tags)),
{
    reveal_strlit("#");
    assert("#"@ =~= seq!['#']);
    let words = tags.map_values(|t: Seq<char>| "#"@ + t);
    assert(words =~= behind_hashes(tags));
    lemma_spaced(words);
}

/// The tags of a note, each behind a `#`, take the place of its old tag line. A note without
/// one gets it behind its title and an empty line, or at its start where it has no title, with
/// an empty line behind it. Where no tag is left, the line goes.
pub proof fn law_note_has_its_tag_line(
    doc: DocumentView,
    add: Seq<Seq<char>>,
    remove: Seq<Seq<char>>,
)
    requires
        doc.partition.kind == DocumentKind::Note,
        doc.partition.title matches Some(x) ==> x.end > 0,
    ensures
        ({
            let b = doc.source;
            let tags = content::tags_edited(content::document_tags(doc), add, remove);
            let line = vstd::utf8::encode_utf8(spaced(behind_hashes(tags)) + seq!['\n']);
            let r = content::tag_edit(doc, add, remove);
            match doc.partition.tags {
                Some(x) => r == b.take(x.start) + (if tags.len() > 0 {
                    line
                } else {
                    Seq::empty()
                }) + b.skip(x.end),
                None => if tags.len() == 0 {
                    r == b
                } else {
                    match doc.partition.title {
                        Some(x) => r == b.take(x.end) + seq![10u8] + line + seq![10u8] + b.skip(
                            x.end,
                        ),
                        None => r == line + seq![10u8] + b,
                    }
                },
            }
        }),
{
    reveal_strlit("\n");
    assert("\n"@ =~= seq!['\n']);
    let b = doc.source;
    let tags = content::tags_edited(content::document_tags(doc), add, remove);
    lemma_behind_hashes(tags);
    let line = vstd::utf8::encode_utf8(spaced(behind_hashes(tags)) + seq!['\n']);
    let r = content::tag_edit(doc, add, remove);
    match doc.partition.tags {
        Some(x) => {},
        None => if tags.len() > 0 {
            match doc.partition.title {
                Some(x) => {
                    assert(r =~= b.take(x.end) + seq![10u8] + line + seq![10u8] + b.skip(x.end));
                },
                None => {
                    assert(r =~= line + seq![10u8] + b);
                },
            }
        },
    }
}

/// The tags of a task or a bookmark stand in a section of their own, which takes the place of
/// the old one or is set behind the document by an empty line. Where no tag is left, the
/// section goes.
pub proof fn law_task_has_its_tag_section(
    doc: DocumentView,
    add: Seq<Seq<char>>,
    remove: Seq<Seq<char>>,
)
    requires
        doc.partition.kind != DocumentKind::Note,
    ensures
        ({
            let b = doc.source;
            let tags = content::tags_edited(content::document_tags(doc), add, remove);
            let section = vstd::utf8::encode_utf8(
                seq!['#', '#', ' ', 'T', 'a', 'g', 's', '\n', '\n'] + spaced(behind_hashes(tags))
                    + seq!['\n'],
            );
            let r = content::tag_edit(doc, add, remove);
            match doc.partition.tags {
                Some(x) => r == b.take(x.start) + (if tags.len() > 0 {
                    section
                } else {
                    Seq::empty()
                }) + b.skip(x.end),
                None => r == (if tags.len() == 0 {
                    b
                } else if b.len() > 0 && b.last() == 10 {
                    b + seq![10u8] + section
                } else {
                    b + seq![10u8, 10u8] + section
                }),
            }
        }),
{
    reveal_strlit("\n");
    reveal_strlit("## Tags\n\n");
    assert("\n"@ =~= seq!['\n']);
    assert("## Tags\n\n"@ =~= seq!['#', '#', ' ', 'T', 'a', 'g', 's', '\n', '\n']);
    let b = doc.source;
    let tags = content::tags_edited(content::document_tags(doc), add, remove);
    lemma_behind_hashes(tags);
    let section = vstd::utf8::encode_utf8(
        seq!['#', '#', ' ', 'T', 'a', 'g', 's', '\n', '\n'] + spaced(behind_hashes(tags)) + seq![
            '\n',
        ],
    );
    let r = content::tag_edit(doc, add, remove);
    if doc.partition.tags is None && tags.len() > 0 {
        if b.len() > 0 && b.last() == 10 {
            assert(r =~= b + seq![10u8] + section);
        } else {
            assert(r =~= b + seq![10u8, 10u8] + section);
        }
    }
}

/// Marking a title sets its box, and nothing else in it: an `x` where the task is done, a space
/// where it is not.
pub proof fn law_box_of_a_title_is_set(spaces: nat, mark: char, rest: Seq<char>, done: bool)
    requires
        mark == ' ' || mark == 'x' || mark == 'X',
    ensures
        ({
            let front = text_laws::run_of(' ', spaces) + seq!['#', ' ', '['];
            let back = seq![']', ' '] + rest;
            content::checked_title(vstd::utf8::encode_utf8(front + seq![mark] + back), done)
                == front + seq![
                if done {
                    'x'
                } else {
                    ' '
                },
            ] + back
        }),
{
    let front = text_laws::run_of(' ', spaces) + seq!['#', ' ', '['];
    let back = seq![']', ' '] + rest;
    let s = front + seq![mark] + back;
    let j = spaces as int;
    text::lemma_lossy_of_text(s);
    let p = content::no_space();
    assert forall|k: int| 0 <= k < j implies !p(#[trigger] s[k]) && s[k] == ' ' by {
        assert(s[k] == front[k]);
        assert(front[k] == text_laws::run_of(' ', spaces)[k]);
    }
    assert(s[j] == front[j]);
    assert(s[j + 1] == front[j + 1]);
    assert(s[j + 2] == front[j + 2]);
    assert(s[j + 3] == mark);
    assert(s[j + 4] == back[0]);
    assert(s[j + 5] == back[1]);
    bytes::lemma_find_from_is(s, p, 0, j);
    assert(content::boxed(s, j, mark));
    assert(s.update(j + 3, content::mark_char(done)) =~= front + seq![content::mark_char(done)]
        + back);
}

/// A title without a bracket gets its box behind the `#` of its heading.
pub proof fn law_box_of_a_title_is_added(rest: Seq<char>, done: bool)
    requires
        !rest.contains('['),
    ensures
        content::checked_title(vstd::utf8::encode_utf8(seq!['#', ' '] + rest), done) == seq![
            '#',
            ' ',
            '[',
            if done {
                'x'
            } else {
                ' '
            },
            ']',
            ' ',
        ] + rest,
{
    let s = seq!['#', ' '] + rest;
    text::lemma_lossy_of_text(s);
    reveal_strlit("# ");
    reveal_strlit(" ");
    reveal_strlit("[x]");
    reveal_strlit("[X]");
    reveal_strlit("[ ]");
    assert forall|k: int| 0 <= k < s.len() implies s[k] != '[' by {
        if k >= 2 && s[k] == '[' {
            assert(rest[k - 2] == '[');
        }
    }
    lemma_no_bracket(s, "[x]"@);
    lemma_no_bracket(s, "[X]"@);
    lemma_no_bracket(s, "[ ]"@);
    let j = bytes::find_from(s, content::no_space(), 0);
    bytes::lemma_find_from_is(s, content::no_space(), 0, 0);
    assert(s.take(2) =~= "# "@);
    assert(s.skip(2) =~= rest);
    assert(content::checked_title(vstd::utf8::encode_utf8(s), done) =~= seq![
        '#',
        ' ',
        '[',
        content::mark_char(done),
        ']',
        ' ',
    ] + rest);
}

proof fn lemma_no_bracket(s: Seq<char>, p: Seq<char>)
    requires
        p.len() > 0,
        p[0] == '[',
        forall|k: int| 0 <= k < s.len() ==> s[k] != '[',
    ensures
        text::find_text(s, p, 0) is None,
{
    text::lemma_find_text(s, p, 0);
    if let Some(i) = text::find_text(s, p, 0) {
        assert(s.subrange(i, i + p.len())[0] == s[i]);
    }
}

} // verus!
