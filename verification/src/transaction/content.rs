//! Builds and edits the bytes of notes, tasks and bookmarks.

use crate::bytes;
use crate::bytes::{CLOSE_BRACKET, LF, LOWER_X, OPEN_BRACKET, SPACE};
use crate::error;
use crate::error::{NbError, NbErrorView};
use crate::lines;
use crate::parser;
use crate::parser::document;
use crate::parser::document::{DocumentKind, DocumentView, NoteDocument};
use crate::parser::parse_at;
use crate::paths;
use crate::text;
use vstd::prelude::*;

verus! {

/// A tag with its `#`.
pub open spec fn tag_text(tag: Seq<char>) -> Seq<char> {
    if tag.len() > 0 && tag[0] == '#' {
        tag
    } else {
        "#"@ + tag
    }
}

/// Tags, each with its `#`, with spaces between them.
pub open spec fn tags_text(tags: Seq<Seq<char>>) -> Seq<char> {
    text::join(tags.map_values(|t: Seq<char>| tag_text(t)), " "@)
}

/// A text that ends with a line feed.
pub open spec fn ended(s: Seq<char>) -> Seq<char> {
    if s.len() > 0 && s.last() == '\n' {
        s
    } else {
        s + "\n"@
    }
}

/// What stands before the content of a new note: its title and its tag line, each set apart by
/// an empty line.
pub open spec fn note_head(title: Option<Seq<char>>, tags: Seq<Seq<char>>) -> Seq<char> {
    (match title {
        Some(t) => "# "@ + t + "\n\n"@,
        None => ""@,
    }) + (if tags.len() > 0 {
        tags_text(tags) + "\n\n"@
    } else {
        ""@
    })
}

/// The text of a new note.
pub open spec fn note_text(
    title: Option<Seq<char>>,
    content: Seq<char>,
    tags: Seq<Seq<char>>,
) -> Seq<char> {
    note_head(title, tags) + content
}

/// The checklist of a new task.
pub open spec fn tasks_text(tasks: Seq<Seq<char>>) -> Seq<char> {
    text::join(tasks.map_values(|t: Seq<char>| "- [ ] "@ + t + "\n"@), ""@)
}

/// The tag section of a new task or bookmark.
pub open spec fn tag_section_text(tags: Seq<Seq<char>>) -> Seq<char> {
    if tags.len() > 0 {
        "## Tags\n\n"@ + tags_text(tags) + "\n"@
    } else {
        ""@
    }
}

/// The text of a new task. A title that already has a bracket keeps its own checkbox.
pub open spec fn todo_text(
    title: Seq<char>,
    description: Option<Seq<char>>,
    tasks: Seq<Seq<char>>,
    tags: Seq<Seq<char>>,
) -> Seq<char> {
    (if title.contains('[') {
        "# "@ + title + "\n\n"@
    } else {
        "# [ ] "@ + title + "\n\n"@
    }) + (if tasks.len() > 0 {
        "## Tasks\n\n"@ + tasks_text(tasks) + "\n"@
    } else {
        ""@
    }) + (match description {
        Some(d) => "## Description\n\n"@ + ended(d) + "\n"@,
        None => ""@,
    }) + tag_section_text(tags)
}

/// The text of a new bookmark.
pub open spec fn bookmark_text(
    url: Seq<char>,
    title: Option<Seq<char>>,
    tags: Seq<Seq<char>>,
    comment: Option<Seq<char>>,
) -> Seq<char> {
    (match title {
        Some(t) => "# "@ + t + "\n\n"@,
        None => ""@,
    }) + ("<"@ + url + ">\n\n"@) + (match comment {
        Some(c) => "## Content\n\n"@ + ended(c) + "\n"@,
        None => ""@,
    }) + tag_section_text(tags)
}

/// Tags, each with its `#`, with spaces between them.
fn tags_text_of(tags: &Vec<String>) -> (r: String)
    ensures
        r@ == tags_text(text::texts(tags@)),
{
    let ghost all = text::texts(tags@).map_values(|t: Seq<char>| tag_text(t));
    let mut out: Vec<String> = Vec::new();
    let mut i: usize = 0;
    assert(text::texts(out@) =~= all.take(0));
    while i < tags.len()
        invariant
            i <= tags.len(),
            all == text::texts(tags@).map_values(|t: Seq<char>| tag_text(t)),
            text::texts(out@) == all.take(i as int),
        decreases tags.len() - i,
    {
        let item = with_hash(tags[i].as_str());
        let ghost before = out@;
        out.push(item);
        proof {
            assert(text::texts(out@) =~= text::texts(before).push(item@));
            assert(all.take(i + 1) =~= all.take(i as int).push(all[i as int]));
        }
        i += 1;
    }
    assert(all.take(all.len() as int) =~= all);
    text::join_with(&out, " ")
}

/// A tag with its `#`.
pub fn with_hash(tag: &str) -> (r: String)
    ensures
        r@ == tag_text(tag@),
{
    let x = text::chars_of(tag);
    if x.len() > 0 && x[0] == '#' {
        tag.to_string()
    } else {
        text::cat2("#", tag)
    }
}

/// A text that ends with a line feed.
fn ended_of(s: &str) -> (r: String)
    ensures
        r@ == ended(s@),
{
    let x = text::chars_of(s);
    if x.len() > 0 && x[x.len() - 1] == '\n' {
        s.to_string()
    } else {
        text::cat2(s, "\n")
    }
}

/// The tag section of a new task or bookmark.
fn tag_section_of(tags: &Vec<String>) -> (r: String)
    ensures
        r@ == tag_section_text(text::texts(tags@)),
{
    assert(text::texts(tags@).len() == tags@.len());
    if tags.len() > 0 {
        let line = tags_text_of(tags);
        text::cat3("## Tags\n\n", line.as_str(), "\n")
    } else {
        "".to_string()
    }
}

/// The title paragraph of a new note or bookmark.
fn title_of(title: Option<&str>) -> (r: String)
    ensures
        r@ == (match title {
            Some(t) => "# "@ + t@ + "\n\n"@,
            None => ""@,
        }),
{
    match title {
        Some(t) => text::cat3("# ", t, "\n\n"),
        None => "".to_string(),
    }
}

/// The bytes of a new note.
pub fn build_note_bytes(title: Option<&str>, content: &str, tags: &Vec<String>) -> (r: Vec<u8>)
    ensures
        r@ == vstd::utf8::encode_utf8(
            note_text(text::opt_str(title), content@, text::texts(tags@)),
        ),
{
    let head = title_of(title);
    assert(text::texts(tags@).len() == tags@.len());
    let line = if tags.len() > 0 {
        let t = tags_text_of(tags);
        text::cat2(t.as_str(), "\n\n")
    } else {
        "".to_string()
    };
    let all = text::cat3(head.as_str(), line.as_str(), content);
    text::bytes_of(all.as_str())
}

/// The checklist of a new task.
fn tasks_text_of(tasks: &Vec<String>) -> (r: String)
    ensures
        r@ == tasks_text(text::texts(tasks@)),
{
    let ghost all = text::texts(tasks@).map_values(|t: Seq<char>| "- [ ] "@ + t + "\n"@);
    let mut out: Vec<String> = Vec::new();
    let mut i: usize = 0;
    assert(text::texts(out@) =~= all.take(0));
    while i < tasks.len()
        invariant
            i <= tasks.len(),
            all == text::texts(tasks@).map_values(|t: Seq<char>| "- [ ] "@ + t + "\n"@),
            text::texts(out@) == all.take(i as int),
        decreases tasks.len() - i,
    {
        let item = text::cat3("- [ ] ", tasks[i].as_str(), "\n");
        let ghost before = out@;
        out.push(item);
        proof {
            assert(text::texts(out@) =~= text::texts(before).push(item@));
            assert(all.take(i + 1) =~= all.take(i as int).push(all[i as int]));
        }
        i += 1;
    }
    assert(all.take(all.len() as int) =~= all);
    text::join_with(&out, "")
}

/// The bytes of a new task.
pub fn build_todo_bytes(
    title: &str,
    description: Option<&str>,
    tasks: &Vec<String>,
    tags: &Vec<String>,
) -> (r: Vec<u8>)
    ensures
        r@ == vstd::utf8::encode_utf8(
            todo_text(
                title@,
                text::opt_str(description),
                text::texts(tasks@),
                text::texts(tags@),
            ),
        ),
{
    let head = if text::contains_char(title, '[') {
        text::cat3("# ", title, "\n\n")
    } else {
        text::cat3("# [ ] ", title, "\n\n")
    };
    assert(text::texts(tasks@).len() == tasks@.len());
    let list = if tasks.len() > 0 {
        let t = tasks_text_of(tasks);
        text::cat3("## Tasks\n\n", t.as_str(), "\n")
    } else {
        "".to_string()
    };
    let about = match description {
        Some(d) => {
            let t = ended_of(d);
            text::cat3("## Description\n\n", t.as_str(), "\n")
        },
        None => "".to_string(),
    };
    let section = tag_section_of(tags);
    let all = text::cat4(head.as_str(), list.as_str(), about.as_str(), section.as_str());
    text::bytes_of(all.as_str())
}

/// The bytes of a new bookmark.
pub fn build_bookmark_bytes(
    url: &str,
    title: Option<&str>,
    tags: &Vec<String>,
    comment: Option<&str>,
) -> (r: Vec<u8>)
    ensures
        r@ == vstd::utf8::encode_utf8(
            bookmark_text(
                url@,
                text::opt_str(title),
                text::texts(tags@),
                text::opt_str(comment),
            ),
        ),
{
    let head = title_of(title);
    let link = text::cat3("<", url, ">\n\n");
    let about = match comment {
        Some(c) => {
            let t = ended_of(c);
            text::cat3("## Content\n\n", t.as_str(), "\n")
        },
        None => "".to_string(),
    };
    let section = tag_section_of(tags);
    let all = text::cat4(head.as_str(), link.as_str(), about.as_str(), section.as_str());
    text::bytes_of(all.as_str())
}

/// The byte `-`.
pub const DASH: u8 = 0x2d;

/// A checklist item, with something after it, stands at byte `i`.
pub open spec fn task_at(b: Seq<u8>, i: int) -> bool {
    b[i] == DASH && b[i + 1] == SPACE && b[i + 2] == OPEN_BRACKET && b[i + 4] == CLOSE_BRACKET
}

/// Where the `n`-th checklist item from byte `i` on stands, counted from 1.
pub open spec fn nth_task(b: Seq<u8>, i: int, n: nat) -> Option<int>
    decreases b.len() - i,
{
    if i < 0 || i + 5 >= b.len() || n == 0 {
        None
    } else if task_at(b, i) {
        if n == 1 {
            Some(i)
        } else {
            nth_task(b, i + 1, (n - 1) as nat)
        }
    } else {
        nth_task(b, i + 1, n)
    }
}

/// The checkbox for a state.
pub open spec fn mark_text(done: bool) -> Seq<char> {
    if done {
        "[x]"@
    } else {
        "[ ]"@
    }
}

/// A text that starts with `j` spaces and a level-one heading with a checkbox.
pub open spec fn boxed(s: Seq<char>, j: int, m: char) -> bool {
    &&& 0 <= j
    &&& j + 6 <= s.len()
    &&& forall|k: int| 0 <= k < j ==> #[trigger] s[k] == ' '
    &&& s[j] == '#' && s[j + 1] == ' ' && s[j + 2] == '[' && s[j + 3] == m && s[j + 4] == ']'
        && s[j + 5] == ' '
}

/// The test for a character other than a space.
pub open spec fn no_space() -> spec_fn(char) -> bool {
    |c: char| c != ' '
}

/// Where the mark of a title is that says whether its task is done.
pub open spec fn own_mark(s: Seq<char>) -> Option<int> {
    let j = bytes::find_from(s, no_space(), 0);
    if boxed(s, j, ' ') || boxed(s, j, 'x') || boxed(s, j, 'X') {
        Some(j + 3)
    } else {
        None
    }
}

/// The mark of a state.
pub open spec fn mark_char(done: bool) -> char {
    if done {
        'x'
    } else {
        ' '
    }
}

/// A title line with its checkbox in the given state: the one that says whether the task is
/// done, or else the first that it has; one without gets it after `# `.
pub open spec fn checked_title(title: Seq<u8>, done: bool) -> Seq<char> {
    let s = text::lossy_text(title);
    let mark = mark_text(done);
    match own_mark(s) {
        Some(i) => s.update(i, mark_char(done)),
        None => if text::find_text(s, "[x]"@, 0) is Some || text::find_text(s, "[X]"@, 0) is Some {
            text::replace_first(text::replace_first(s, "[x]"@, mark), "[X]"@, mark)
        } else if text::find_text(s, "[ ]"@, 0) is Some {
            text::replace_first(s, "[ ]"@, mark)
        } else if "# "@.is_prefix_of(s) {
            "# "@ + mark + " "@ + s.skip(2)
        } else {
            s
        },
    }
}

/// Where the mark of a title is that says whether its task is done.
fn own_mark_in(x: &Vec<char>) -> (r: Option<usize>)
    ensures
        match r {
            Some(i) => own_mark(x@) == Some(i as int) && i < x@.len(),
            None => own_mark(x@) is None,
        },
{
    let mut j: usize = 0;
    while j < x.len() && x[j] == ' '
        invariant
            j <= x.len(),
            forall|k: int| 0 <= k < j ==> #[trigger] x@[k] == ' ',
        decreases x.len() - j,
    {
        j += 1;
    }
    proof {
        assert forall|k: int| 0 <= k < j implies !no_space()(#[trigger] x@[k]) by {
            assert(x@[k] == ' ');
        }
        bytes::lemma_find_from_is(x@, no_space(), 0, j as int);
    }
    if x.len() - j >= 6 && x[j] == '#' && x[j + 1] == ' ' && x[j + 2] == '[' && (x[j + 3] == ' '
        || x[j + 3] == 'x' || x[j + 3] == 'X') && x[j + 4] == ']' && x[j + 5] == ' ' {
        Some(j + 3)
    } else {
        None
    }
}

/// A title line with its checkbox in the given state.
pub fn replace_checkbox(title: &[u8], done: bool) -> (r: Vec<u8>)
    ensures
        r@ == vstd::utf8::encode_utf8(checked_title(title@, done)),
{
    let s = text::from_utf8_lossy(title);
    let mut x = text::chars_of(s.as_str());
    if let Some(i) = own_mark_in(&x) {
        x.set(i, if done { 'x' } else { ' ' });
        let new = text::string_of(x.as_slice());
        return text::bytes_of(new.as_str());
    }
    let mark = if done {
        "[x]"
    } else {
        "[ ]"
    };
    let has_mark = text::find_text_in(s.as_str(), "[x]").is_some() || text::find_text_in(
        s.as_str(),
        "[X]",
    ).is_some();
    let new = if has_mark {
        let once = text::with_first_replaced(s.as_str(), "[x]", mark);
        text::with_first_replaced(once.as_str(), "[X]", mark)
    } else if text::find_text_in(s.as_str(), "[ ]").is_some() {
        text::with_first_replaced(s.as_str(), "[ ]", mark)
    } else if text::starts_with(s.as_str(), "# ") {
        proof {
            reveal_strlit("# ");
        }
        let rest = text::string_of(vstd::slice::slice_subrange(x.as_slice(), 2, x.len()));
        assert(rest@ =~= s@.skip(2));
        text::cat4("# ", mark, " ", rest.as_str())
    } else {
        s
    };
    text::bytes_of(new.as_str())
}

/// A task with the state of its title, or of one checklist item, set; or the refusal.
pub open spec fn state_set(b: Seq<u8>, path: Seq<char>, done: bool, task: Option<u32>) -> Result<
    Seq<u8>,
    NbErrorView,
> {
    match parser::parsed_at(b, path) {
        Err(e) => Err(e),
        Ok(doc) => if doc.partition.kind != DocumentKind::Todo {
            Err(
                NbErrorView::UnsupportedStructure {
                    reason: "mark_task_done/unmark_task_done require a Todo document"@,
                },
            )
        } else {
            match task {
                Some(n) => match nth_task(b, 0, n as nat) {
                    Some(i) => Ok(
                        b.update(
                            i + 3,
                            if done {
                                LOWER_X
                            } else {
                                SPACE
                            },
                        ),
                    ),
                    None => Err(
                        error::invalid(
                            "task_number "@ + text::decimal(n as nat) + " not found"@,
                        ),
                    ),
                },
                None => match doc.partition.title {
                    Some(r) => Ok(
                        bytes::spliced(
                            b,
                            r.start,
                            r.end,
                            vstd::utf8::encode_utf8(
                                checked_title(bytes::slice_of(b, r), done),
                            ),
                        ),
                    ),
                    None => Ok(b),
                },
            }
        },
    }
}

/// Set the state of a task, or of the checklist item with the given number, from 1.
pub fn set_todo_state(bytes: &[u8], path: &str, done: bool, task_number: Option<u32>) -> (r: Result<
    Vec<u8>,
    NbError,
>)
    ensures
        lines::bytes_agree(r, state_set(bytes@, path@, done, task_number)),
{
    let doc = match parse_at(bytes, path) {
        Ok(doc) => doc,
        Err(e) => {
            return Err(e);
        },
    };
    proof {
        lemma_parsed_source(bytes@, path@);
    }
    if doc.kind() != DocumentKind::Todo {
        return Err(
            NbError::UnsupportedStructure {
                reason: "mark_task_done/unmark_task_done require a Todo document".to_string(),
            },
        );
    }
    let mut out = vstd::slice::slice_to_vec(bytes);
    if let Some(n) = task_number {
        let mut left: u32 = n;
        let mut i: usize = 0;
        while i < out.len() && out.len() - i > 5 && left > 0
            invariant
                i <= out.len(),
                out@ == bytes@,
                nth_task(bytes@, 0, n as nat) == nth_task(bytes@, i as int, left as nat),
                task_number == Some(n),
                parser::parsed_at(bytes@, path@) == Ok::<DocumentView, NbErrorView>(doc@),
                doc@.partition.kind == DocumentKind::Todo,
            decreases out.len() - i,
        {
            if out[i] == DASH && out[i + 1] == SPACE && out[i + 2] == OPEN_BRACKET && out[i + 4]
                == CLOSE_BRACKET {
                if left == 1 {
                    let mark: u8 = if done {
                        LOWER_X
                    } else {
                        SPACE
                    };
                    out.set(i + 3, mark);
                    return Ok(out);
                }
                left -= 1;
            }
            i += 1;
        }
        let digits = text::decimal_of(n as u64);
        let reason = text::cat3("task_number ", digits.as_str(), " not found");
        return Err(NbError::invalid(reason.as_str()));
    }
    if let Some(range) = doc.title_byte_range() {
        let title = vstd::slice::slice_subrange(bytes, range.start, range.end);
        let replaced = replace_checkbox(title, done);
        out = bytes::splice(bytes, range.start, range.end, replaced.as_slice());
    }
    Ok(out)
}

/// A parsed document keeps its source.
pub proof fn lemma_parsed_source(b: Seq<u8>, path: Seq<char>)
    ensures
        parser::parsed_at(b, path) matches Ok(doc) ==> doc.source == b,
{
}

/// The tags among the first `n` that are UTF-8, without leading `#`s.
pub open spec fn readable_tags(v: Seq<Seq<u8>>, n: int) -> Seq<Seq<char>>
    decreases n,
{
    if n <= 0 {
        Seq::empty()
    } else if vstd::utf8::valid_utf8(v[n - 1]) {
        readable_tags(v, n - 1).push(
            paths::strip_leading(vstd::utf8::decode_utf8(v[n - 1]), '#'),
        )
    } else {
        readable_tags(v, n - 1)
    }
}

/// The tags of a document that are UTF-8.
pub open spec fn document_tags(doc: DocumentView) -> Seq<Seq<char>> {
    let v = document::slices(doc.source, doc.tag_spans());
    readable_tags(v, v.len() as int)
}

/// The test for any text but one.
pub open spec fn other_than(key: Seq<char>) -> spec_fn(Seq<char>) -> bool {
    |t: Seq<char>| t != key
}

/// Tags without those of the first `n` to remove.
pub open spec fn tags_removed(tags: Seq<Seq<char>>, remove: Seq<Seq<char>>, n: int) -> Seq<
    Seq<char>,
>
    decreases n,
{
    if n <= 0 {
        tags
    } else {
        tags_removed(tags, remove, n - 1).filter(
            other_than(paths::strip_leading(remove[n - 1], '#')),
        )
    }
}

/// Tags with those of the first `n` to add that are not there yet.
pub open spec fn tags_added(tags: Seq<Seq<char>>, add: Seq<Seq<char>>, n: int) -> Seq<Seq<char>>
    decreases n,
{
    if n <= 0 {
        tags
    } else {
        let before = tags_added(tags, add, n - 1);
        let key = paths::strip_leading(add[n - 1], '#');
        if before.contains(key) {
            before
        } else {
            before.push(key)
        }
    }
}

/// Tags after removals, then additions.
pub open spec fn tags_edited(
    tags: Seq<Seq<char>>,
    add: Seq<Seq<char>>,
    remove: Seq<Seq<char>>,
) -> Seq<Seq<char>> {
    tags_added(tags_removed(tags, remove, remove.len() as int), add, add.len() as int)
}

proof fn lemma_added_keeps(tags: Seq<Seq<char>>, add: Seq<Seq<char>>, n: int, t: Seq<char>)
    requires
        0 <= n <= add.len(),
    ensures
        tags.contains(t) ==> tags_added(tags, add, n).contains(t),
        tags_added(tags, add, n).contains(t) ==> tags.contains(t) || exists|k: int|
            0 <= k < n && paths::strip_leading(#[trigger] add[k], '#') == t,
    decreases n,
{
    if n > 0 {
        lemma_added_keeps(tags, add, n - 1, t);
        let before = tags_added(tags, add, n - 1);
        let key = paths::strip_leading(add[n - 1], '#');
        if !before.contains(key) {
            let now = before.push(key);
            if before.contains(t) {
                let i = choose|i: int| 0 <= i < before.len() && before[i] == t;
                assert(now[i] == t);
            }
            if now.contains(t) {
                let i = choose|i: int| 0 <= i < now.len() && now[i] == t;
                if i < before.len() {
                    assert(before[i] == t);
                } else {
                    assert(paths::strip_leading(add[n - 1], '#') == t);
                }
            }
        }
    }
}

proof fn lemma_added_has(tags: Seq<Seq<char>>, add: Seq<Seq<char>>, n: int, k: int)
    requires
        0 <= k < n <= add.len(),
    ensures
        tags_added(tags, add, n).contains(paths::strip_leading(add[k], '#')),
    decreases n,
{
    let key = paths::strip_leading(add[n - 1], '#');
    let before = tags_added(tags, add, n - 1);
    let now = tags_added(tags, add, n);
    if k == n - 1 {
        if !before.contains(key) {
            assert(now[now.len() - 1] == key);
        }
    } else {
        lemma_added_has(tags, add, n - 1, k);
        let t = paths::strip_leading(add[k], '#');
        if !before.contains(key) {
            let i = choose|i: int| 0 <= i < before.len() && before[i] == t;
            assert(now[i] == t);
        }
    }
}

proof fn lemma_removed_lacks(tags: Seq<Seq<char>>, remove: Seq<Seq<char>>, n: int, k: int)
    requires
        0 <= k < n <= remove.len(),
    ensures
        !tags_removed(tags, remove, n).contains(paths::strip_leading(remove[k], '#')),
    decreases n,
{
    let t = paths::strip_leading(remove[k], '#');
    let before = tags_removed(tags, remove, n - 1);
    let p = other_than(paths::strip_leading(remove[n - 1], '#'));
    let now = before.filter(p);
    if now.contains(t) {
        let i = choose|i: int| 0 <= i < now.len() && now[i] == t;
        before.lemma_filter_pred(p, i);
        assert(p(now[i]));
        before.lemma_filter_contains_rev(p, t);
        if k < n - 1 {
            lemma_removed_lacks(tags, remove, n - 1, k);
        }
        assert(false);
    }
}

/// Every added tag is there after an edit, and no removed tag is, unless it is also added.
pub proof fn law_tags_are_edited(
    tags: Seq<Seq<char>>,
    add: Seq<Seq<char>>,
    remove: Seq<Seq<char>>,
)
    ensures
        forall|k: int|
            0 <= k < add.len() ==> tags_edited(tags, add, remove).contains(
                paths::strip_leading(#[trigger] add[k], '#'),
            ),
        forall|k: int|
            0 <= k < remove.len() && tags_edited(tags, add, remove).contains(
                paths::strip_leading(#[trigger] remove[k], '#'),
            ) ==> exists|j: int|
                0 <= j < add.len() && paths::strip_leading(#[trigger] add[j], '#')
                    == paths::strip_leading(remove[k], '#'),
{
    let base = tags_removed(tags, remove, remove.len() as int);
    assert forall|k: int| 0 <= k < add.len() implies tags_edited(tags, add, remove).contains(
        paths::strip_leading(#[trigger] add[k], '#'),
    ) by {
        lemma_added_has(base, add, add.len() as int, k);
    }
    assert forall|k: int|
        0 <= k < remove.len() && tags_edited(tags, add, remove).contains(
            paths::strip_leading(#[trigger] remove[k], '#'),
        ) implies exists|j: int|
        0 <= j < add.len() && paths::strip_leading(#[trigger] add[j], '#') == paths::strip_leading(
            remove[k],
            '#',
        ) by {
        lemma_removed_lacks(tags, remove, remove.len() as int, k);
        lemma_added_keeps(
            base,
            add,
            add.len() as int,
            paths::strip_leading(remove[k], '#'),
        );
    }
}

/// Whether a tag is in a list.
fn has_tag(v: &Vec<String>, key: &str) -> (r: bool)
    ensures
        r == text::texts(v@).contains(key@),
{
    let ghost all = text::texts(v@);
    let mut i: usize = 0;
    while i < v.len()
        invariant
            i <= v.len(),
            all == text::texts(v@),
            forall|k: int| 0 <= k < i ==> all[k] != key@,
        decreases v.len() - i,
    {
        assert(all[i as int] == v@[i as int]@);
        if text::equal(v[i].as_str(), key) {
            return true;
        }
        i += 1;
    }
    assert(all.len() == v@.len());
    false
}

/// A list without one tag.
fn without_tag(v: Vec<String>, key: &str) -> (r: Vec<String>)
    ensures
        text::texts(r@) == text::texts(v@).filter(other_than(key@)),
{
    let ghost all = text::texts(v@);
    let ghost p = other_than(key@);
    let mut out: Vec<String> = Vec::new();
    let mut i: usize = 0;
    assert(all.take(0).filter(p) =~= Seq::<Seq<char>>::empty()) by {
        reveal(Seq::filter);
    }
    assert(text::texts(out@) =~= Seq::<Seq<char>>::empty());
    while i < v.len()
        invariant
            i <= v.len(),
            all == text::texts(v@),
            p == other_than(key@),
            text::texts(out@) == all.take(i as int).filter(p),
        decreases v.len() - i,
    {
        proof {
            assert(all.take(i + 1).drop_last() =~= all.take(i as int));
            assert(all.take(i + 1).last() == v@[i as int]@);
            reveal(Seq::filter);
        }
        if !text::equal(v[i].as_str(), key) {
            let ghost before = out@;
            out.push(v[i].clone());
            assert(text::texts(out@) =~= text::texts(before).push(v@[i as int]@));
        }
        i += 1;
    }
    assert(all.take(all.len() as int) =~= all);
    out
}

/// The tags of a document that are UTF-8, without leading `#`s.
fn document_tags_of(doc: &NoteDocument) -> (r: Vec<String>)
    ensures
        text::texts(r@) == document_tags(doc@),
{
    let raw = doc.tags_str();
    let ghost v = document::slices(doc@.source, doc@.tag_spans());
    let mut out: Vec<String> = Vec::new();
    let mut i: usize = 0;
    assert(text::texts(out@) =~= readable_tags(v, 0));
    while i < raw.len()
        invariant
            i <= raw.len(),
            v == document::slices(doc@.source, doc@.tag_spans()),
            raw@.len() == v.len(),
            forall|k: int| 0 <= k < raw@.len() ==> document::reads_as(#[trigger] raw@[k], v[k]),
            text::texts(out@) == readable_tags(v, i as int),
        decreases raw.len() - i,
    {
        assert(document::reads_as(raw@[i as int], v[i as int]));
        if let Ok(t) = &raw[i] {
            let tag = paths::without_leading(t, '#');
            let ghost before = out@;
            out.push(tag);
            assert(text::texts(out@) =~= text::texts(before).push(tag@));
        }
        i += 1;
    }
    out
}

/// The tags after removals, then additions.
fn tags_edited_of(tags: Vec<String>, add: &Vec<String>, remove: &Vec<String>) -> (r: Vec<String>)
    ensures
        text::texts(r@) == tags_edited(text::texts(tags@), text::texts(add@), text::texts(remove@)),
{
    let ghost start = text::texts(tags@);
    let ghost rem = text::texts(remove@);
    let ghost new = text::texts(add@);
    let mut out = tags;
    let mut i: usize = 0;
    while i < remove.len()
        invariant
            i <= remove.len(),
            rem == text::texts(remove@),
            text::texts(out@) == tags_removed(start, rem, i as int),
        decreases remove.len() - i,
    {
        assert(rem[i as int] == remove@[i as int]@);
        let key = paths::without_leading(remove[i].as_str(), '#');
        out = without_tag(out, key.as_str());
        i += 1;
    }
    let ghost base = text::texts(out@);
    assert(rem.len() == remove@.len());
    let mut j: usize = 0;
    while j < add.len()
        invariant
            j <= add.len(),
            new == text::texts(add@),
            text::texts(out@) == tags_added(base, new, j as int),
        decreases add.len() - j,
    {
        assert(new[j as int] == add@[j as int]@);
        let key = paths::without_leading(add[j].as_str(), '#');
        if !has_tag(&out, key.as_str()) {
            let ghost before = out@;
            out.push(key);
            assert(text::texts(out@) =~= text::texts(before).push(key@));
        }
        j += 1;
    }
    assert(new.len() == add@.len());
    out
}

/// Tags, each behind a `#` of its own, with spaces between them.
pub open spec fn hashed(tags: Seq<Seq<char>>) -> Seq<char> {
    text::join(tags.map_values(|t: Seq<char>| "#"@ + t), " "@)
}

/// Tags, each behind a `#` of its own, with spaces between them.
fn hashed_of(tags: &Vec<String>) -> (r: String)
    ensures
        r@ == hashed(text::texts(tags@)),
{
    let ghost all = text::texts(tags@).map_values(|t: Seq<char>| "#"@ + t);
    let mut out: Vec<String> = Vec::new();
    let mut i: usize = 0;
    assert(text::texts(out@) =~= all.take(0));
    while i < tags.len()
        invariant
            i <= tags.len(),
            all == text::texts(tags@).map_values(|t: Seq<char>| "#"@ + t),
            text::texts(out@) == all.take(i as int),
        decreases tags.len() - i,
    {
        let item = text::cat2("#", tags[i].as_str());
        let ghost before = out@;
        out.push(item);
        proof {
            assert(text::texts(out@) =~= text::texts(before).push(item@));
            assert(all.take(i + 1) =~= all.take(i as int).push(all[i as int]));
        }
        i += 1;
    }
    assert(all.take(all.len() as int) =~= all);
    text::join_with(&out, " ")
}

/// A note with the given tags: its tag line replaced or dropped, or a new one after the
/// title.
pub open spec fn note_tagged(doc: DocumentView, tags: Seq<Seq<char>>) -> Seq<u8> {
    let line = vstd::utf8::encode_utf8(hashed(tags) + "\n"@);
    match doc.partition.tags {
        Some(r) => bytes::spliced(
            doc.source,
            r.start,
            r.end,
            if tags.len() > 0 {
                line
            } else {
                Seq::empty()
            },
        ),
        None => if tags.len() > 0 {
            let at = match doc.partition.title {
                Some(r) => r.end,
                None => 0,
            };
            bytes::spliced(
                doc.source,
                at,
                at,
                (if at > 0 {
                    seq![LF]
                } else {
                    Seq::empty()
                }) + line + seq![LF],
            )
        } else {
            doc.source
        },
    }
}

/// A task or bookmark with the given tags: its tag section replaced or dropped, or a new one
/// at the end.
pub open spec fn section_tagged(doc: DocumentView, tags: Seq<Seq<char>>) -> Seq<u8> {
    let section = vstd::utf8::encode_utf8("## Tags\n\n"@ + hashed(tags) + "\n"@);
    match doc.partition.tags {
        Some(r) => bytes::spliced(
            doc.source,
            r.start,
            r.end,
            if tags.len() > 0 {
                section
            } else {
                Seq::empty()
            },
        ),
        None => if tags.len() > 0 {
            lines::title_line(doc.source) + seq![LF] + section
        } else {
            doc.source
        },
    }
}

/// The source of a document after a tag edit.
pub open spec fn tag_edit(doc: DocumentView, add: Seq<Seq<char>>, remove: Seq<Seq<char>>) -> Seq<
    u8,
> {
    let tags = tags_edited(document_tags(doc), add, remove);
    if doc.partition.kind == DocumentKind::Note {
        note_tagged(doc, tags)
    } else {
        section_tagged(doc, tags)
    }
}

/// The source of a document after tags have been removed and added.
pub fn apply_tag_edit(doc: &NoteDocument, add: &Vec<String>, remove: &Vec<String>) -> (r: Vec<u8>)
    ensures
        r@ == tag_edit(doc@, text::texts(add@), text::texts(remove@)),
{
    let tags = tags_edited_of(document_tags_of(doc), add, remove);
    let source = doc.source();
    let line = hashed_of(&tags);
    assert(text::texts(tags@).len() == tags@.len());
    if doc.kind() == DocumentKind::Note {
        let mut block: Vec<u8> = Vec::new();
        let ended = text::cat2(line.as_str(), "\n");
        match doc.tags_byte_range() {
            Some(range) => {
                if tags.len() > 0 {
                    block = text::bytes_of(ended.as_str());
                }
                assert(tags@.len() == 0 ==> block@ =~= Seq::<u8>::empty());
                bytes::splice(source, range.start, range.end, block.as_slice())
            },
            None => {
                if tags.len() == 0 {
                    return vstd::slice::slice_to_vec(source);
                }
                let at: usize = match doc.title_byte_range() {
                    Some(r) => r.end,
                    None => 0,
                };
                let ghost lead = if at > 0 {
                    seq![LF]
                } else {
                    Seq::empty()
                };
                if at > 0 {
                    block.push(LF);
                }
                assert(block@ =~= lead);
                let body = text::bytes_of(ended.as_str());
                block.extend_from_slice(body.as_slice());
                assert(block@ =~= lead + body@);
                block.push(LF);
                assert(block@ =~= lead + body@ + seq![LF]);
                bytes::splice(source, at, at, block.as_slice())
            },
        }
    } else {
        let whole = text::cat3("## Tags\n\n", line.as_str(), "\n");
        let section = text::bytes_of(whole.as_str());
        match doc.tags_byte_range() {
            Some(range) => {
                let mut block: Vec<u8> = Vec::new();
                if tags.len() > 0 {
                    block = section;
                }
                assert(tags@.len() == 0 ==> block@ =~= Seq::<u8>::empty());
                bytes::splice(source, range.start, range.end, block.as_slice())
            },
            None => {
                let mut out = vstd::slice::slice_to_vec(source);
                if tags.len() > 0 {
                    if out.len() == 0 || out[out.len() - 1] != LF {
                        out.push(LF);
                    }
                    assert(out@ =~= lines::title_line(source@));
                    out.push(LF);
                    let ghost head = out@;
                    out.extend_from_slice(section.as_slice());
                    assert(out@ =~= lines::title_line(source@) + seq![LF] + section@);
                }
                out
            },
        }
    }
}

/// Writing the mark of a checklist item leaves every item where it is.
pub proof fn law_marking_keeps_items(b: Seq<u8>, at: int, mark: u8, i: int, n: nat)
    requires
        0 <= at,
        at + 5 < b.len(),
        task_at(b, at),
        0 <= i,
    ensures
        nth_task(b.update(at + 3, mark), i, n) == nth_task(b, i, n),
    decreases b.len() - i,
{
    let c = b.update(at + 3, mark);
    if i + 5 < b.len() && n > 0 {
        assert(task_at(c, i) == task_at(b, i)) by {
            assert(forall|k: int| 0 <= k < b.len() && k != at + 3 ==> c[k] == b[k]);
        }
        law_marking_keeps_items(b, at, mark, i + 1, n);
        law_marking_keeps_items(b, at, mark, i + 1, (n - 1) as nat);
    }
}

/// Opening a checklist item again undoes that it was marked as done.
pub proof fn law_unmark_undoes_mark(b: Seq<u8>, n: nat, at: int)
    requires
        nth_task(b, 0, n) == Some(at),
        b[at + 3] == SPACE,
    ensures
        nth_task(b.update(at + 3, LOWER_X), 0, n) == Some(at),
        b.update(at + 3, LOWER_X).update(at + 3, SPACE) == b,
{
    lemma_nth_task(b, 0, n);
    law_marking_keeps_items(b, at, LOWER_X, 0, n);
    assert(b.update(at + 3, LOWER_X).update(at + 3, SPACE) =~= b);
}

proof fn lemma_nth_task(b: Seq<u8>, i: int, n: nat)
    requires
        0 <= i,
    ensures
        nth_task(b, i, n) matches Some(at) ==> i <= at && at + 5 < b.len() && task_at(b, at),
    decreases b.len() - i,
{
    if i + 5 < b.len() && n > 0 {
        lemma_nth_task(b, i + 1, n);
        lemma_nth_task(b, i + 1, (n - 1) as nat);
    }
}

} // verus!
