//! `.index` files: the line number of a name is its numeric id.
//!
//! A deleted name leaves an empty line, so that ids are never reused and the other ids stay.

use crate::bytes;
use crate::paths;
use crate::paths::split_folder_basename;
use crate::text;
use vstd::prelude::*;

verus! {

/// What is done to an index.
#[derive(Debug, Clone, PartialEq, Eq)]
pub enum PendingIndexKind {
    Append { basename: String },
    Blank { basename: String },
    Rename { old_basename: String, new_basename: String },
}

/// The model of a [`PendingIndexKind`].
pub enum IndexKind {
    Append { basename: Seq<char> },
    Blank { basename: Seq<char> },
    Rename { old_basename: Seq<char>, new_basename: Seq<char> },
}

impl View for PendingIndexKind {
    type V = IndexKind;

    open spec fn view(&self) -> IndexKind {
        match *self {
            PendingIndexKind::Append { basename } => IndexKind::Append { basename: basename@ },
            PendingIndexKind::Blank { basename } => IndexKind::Blank { basename: basename@ },
            PendingIndexKind::Rename { old_basename, new_basename } => IndexKind::Rename {
                old_basename: old_basename@,
                new_basename: new_basename@,
            },
        }
    }
}

/// A change of one index file.
#[derive(Debug, Clone, PartialEq, Eq)]
pub struct PendingIndexEdit {
    /// The notebook-relative path of the index.
    pub file_rel: String,
    pub kind: PendingIndexKind,
}

/// The model of a [`PendingIndexEdit`].
pub struct IndexEdit {
    pub file: Seq<char>,
    pub kind: IndexKind,
}

impl View for PendingIndexEdit {
    type V = IndexEdit;

    open spec fn view(&self) -> IndexEdit {
        IndexEdit { file: self.file_rel@, kind: self.kind@ }
    }
}

impl PendingIndexEdit {
    /// A copy of the edit.
    pub fn duplicate(&self) -> (r: Self)
        ensures
            r@ == self@,
    {
        PendingIndexEdit {
            file_rel: self.file_rel.clone(),
            kind: match &self.kind {
                PendingIndexKind::Append { basename } => PendingIndexKind::Append {
                    basename: basename.clone(),
                },
                PendingIndexKind::Blank { basename } => PendingIndexKind::Blank {
                    basename: basename.clone(),
                },
                PendingIndexKind::Rename { old_basename, new_basename } => PendingIndexKind::Rename {
                    old_basename: old_basename.clone(),
                    new_basename: new_basename.clone(),
                },
            },
        }
    }
}

/// The models of a vector of edits.
pub open spec fn edit_views(v: Seq<PendingIndexEdit>) -> Seq<IndexEdit> {
    v.map_values(|e: PendingIndexEdit| e@)
}

/// The index of a folder; the root has an empty name.
pub open spec fn index_file(folder: Seq<char>) -> Seq<char> {
    if folder.len() == 0 {
        ".index"@
    } else {
        folder + "/.index"@
    }
}

/// The index of a folder; the root has an empty name.
pub fn index_rel_for_folder(folder: &str) -> (r: String)
    ensures
        r@ == index_file(folder@),
{
    if folder.is_empty() {
        ".index".to_string()
    } else {
        text::cat2(folder, "/.index")
    }
}

/// A path that is that of an index.
pub open spec fn index_path(rel: Seq<char>) -> bool {
    rel == ".index"@ || "/.index"@.is_suffix_of(rel)
}

/// Whether a path is that of an index.
pub fn is_index_rel(rel: &str) -> (r: bool)
    ensures
        r == index_path(rel@),
{
    text::equal(rel, ".index") || text::ends_with(rel, "/.index")
}

/// The edit that lists a new path.
pub open spec fn append_edit(path: Seq<char>) -> IndexEdit {
    let (folder, basename) = paths::folder_and_base(path);
    IndexEdit { file: index_file(folder), kind: IndexKind::Append { basename } }
}

/// The edit that blanks a deleted path.
pub open spec fn blank_edit(path: Seq<char>) -> IndexEdit {
    let (folder, basename) = paths::folder_and_base(path);
    IndexEdit { file: index_file(folder), kind: IndexKind::Blank { basename } }
}

/// The edits for a move: a rename in place inside a folder, else a blank and an append.
pub open spec fn move_edits(from: Seq<char>, to: Seq<char>) -> Seq<IndexEdit> {
    let (from_folder, from_base) = paths::folder_and_base(from);
    let (to_folder, to_base) = paths::folder_and_base(to);
    if from_folder == to_folder {
        seq![
            IndexEdit {
                file: index_file(from_folder),
                kind: IndexKind::Rename { old_basename: from_base, new_basename: to_base },
            },
        ]
    } else {
        seq![blank_edit(from), append_edit(to)]
    }
}

/// The edit that lists a new path.
pub fn append_index_edit(path: &str) -> (r: PendingIndexEdit)
    ensures
        r@ == append_edit(path@),
{
    let (folder, basename) = split_folder_basename(path);
    PendingIndexEdit {
        file_rel: index_rel_for_folder(folder.as_str()),
        kind: PendingIndexKind::Append { basename },
    }
}

/// The edit that blanks a deleted path.
pub fn blank_index_edit(path: &str) -> (r: PendingIndexEdit)
    ensures
        r@ == blank_edit(path@),
{
    let (folder, basename) = split_folder_basename(path);
    PendingIndexEdit {
        file_rel: index_rel_for_folder(folder.as_str()),
        kind: PendingIndexKind::Blank { basename },
    }
}

/// The edits for a move.
pub fn move_index_edits(from: &str, to: &str) -> (r: Vec<PendingIndexEdit>)
    ensures
        edit_views(r@) == move_edits(from@, to@),
{
    let (from_folder, from_base) = split_folder_basename(from);
    let (to_folder, to_base) = split_folder_basename(to);
    let mut out: Vec<PendingIndexEdit> = Vec::new();
    if text::equal(from_folder.as_str(), to_folder.as_str()) {
        out.push(
            PendingIndexEdit {
                file_rel: index_rel_for_folder(from_folder.as_str()),
                kind: PendingIndexKind::Rename { old_basename: from_base, new_basename: to_base },
            },
        );
    } else {
        out.push(blank_index_edit(from));
        out.push(append_index_edit(to));
    }
    assert(edit_views(out@) =~= move_edits(from@, to@));
    out
}

/// The lines of an index; a missing final line feed loses nothing.
pub open spec fn index_lines(b: Seq<u8>) -> Seq<Seq<char>> {
    let t = text::lossy_text(b);
    let parts = text::split(t, '\n');
    if b.len() == 0 {
        Seq::empty()
    } else if t.len() > 0 && t.last() == '\n' {
        parts.drop_last()
    } else {
        parts
    }
}

/// The bytes of an index with the given lines.
pub open spec fn index_bytes(lines: Seq<Seq<char>>) -> Seq<u8> {
    if lines.len() == 0 {
        Seq::empty()
    } else {
        vstd::utf8::encode_utf8(text::join(lines, "\n"@) + "\n"@)
    }
}

/// The lines of an index.
pub fn parse_index_lines(b: &[u8]) -> (r: Vec<String>)
    ensures
        text::texts(r@) == index_lines(b@),
{
    if b.len() == 0 {
        let none: Vec<String> = Vec::new();
        assert(text::texts(none@) =~= Seq::<Seq<char>>::empty());
        return none;
    }
    let t = text::from_utf8_lossy(b);
    let x = text::chars_of(t.as_str());
    let mut lines = text::split_on(t.as_str(), '\n');
    if x.len() > 0 && x[x.len() - 1] == '\n' {
        let ghost before = lines@;
        proof {
            text_split_nonempty(t@);
            assert(text::texts(before).len() == before.len());
        }
        let _ = lines.pop();
        assert(text::texts(lines@) =~= text::texts(before).drop_last());
    }
    lines
}

proof fn text_split_nonempty(t: Seq<char>)
    ensures
        text::split(t, '\n').len() > 0,
{
}

/// The bytes of an index with the given lines.
pub fn render_index_lines(lines: &Vec<String>) -> (r: Vec<u8>)
    ensures
        r@ == index_bytes(text::texts(lines@)),
{
    assert(text::texts(lines@).len() == lines@.len());
    if lines.len() == 0 {
        let none: Vec<u8> = Vec::new();
        assert(none@ =~= Seq::<u8>::empty());
        return none;
    }
    let all = text::join_with(lines, "\n");
    let ended = text::cat2(all.as_str(), "\n");
    text::bytes_of(ended.as_str())
}

/// Joining from the front.
proof fn lemma_join_front(v: Seq<Seq<char>>, sep: Seq<char>)
    requires
        v.len() >= 2,
    ensures
        text::join(v, sep) == v[0] + sep + text::join(v.skip(1), sep),
    decreases v.len(),
{
    let init = v.drop_last();
    if v.len() == 2 {
        let rest = v.skip(1);
        assert(text::join(init, sep) == v[0]);
        assert(text::join(rest, sep) == v[1]);
        assert(text::join(v, sep) =~= v[0] + sep + v[1]);
    } else {
        lemma_join_front(init, sep);
        assert(init.skip(1) =~= v.skip(1).drop_last());
        assert(v.skip(1).last() == v.last());
        assert(text::join(v, sep) =~= v[0] + sep + text::join(v.skip(1), sep));
    }
}

/// Splitting what was joined gives the lines back, and an empty piece after the last.
proof fn lemma_split_joined(v: Seq<Seq<char>>)
    requires
        v.len() > 0,
        forall|k: int| 0 <= k < v.len() ==> !(#[trigger] v[k]).contains('\n'),
    ensures
        text::split(text::join(v, "\n"@) + "\n"@, '\n') == v.push(Seq::empty()),
    decreases v.len(),
{
    reveal_strlit("\n");
    assert("\n"@ =~= seq!['\n']);
    let whole = text::join(v, "\n"@) + "\n"@;
    let first = v[0];
    let n = first.len() as int;
    let rest = if v.len() == 1 {
        Seq::<char>::empty()
    } else {
        text::join(v.skip(1), "\n"@) + "\n"@
    };
    if v.len() > 1 {
        lemma_join_front(v, "\n"@);
    }
    assert(whole =~= first + seq!['\n'] + rest);
    assert forall|k: int| 0 <= k < n implies !text::is_char('\n')(#[trigger] whole[k]) by {
        assert(whole[k] == first[k]);
        if first[k] == '\n' {
            assert(first.contains('\n'));
        }
    }
    bytes::lemma_find_from_is(whole, text::is_char('\n'), 0, n);
    assert(whole.take(n) =~= first);
    assert(whole.skip(n + 1) =~= rest);
    if v.len() == 1 {
        assert(text::split(rest, '\n') =~= seq![Seq::<char>::empty()]);
        assert(seq![first] + seq![Seq::<char>::empty()] =~= v.push(Seq::empty()));
    } else {
        assert forall|k: int| 0 <= k < v.skip(1).len() implies !(
        #[trigger] v.skip(1)[k]).contains('\n') by {
            assert(v.skip(1)[k] == v[k + 1]);
        }
        lemma_split_joined(v.skip(1));
        assert(seq![first] + v.skip(1).push(Seq::empty()) =~= v.push(Seq::empty()));
    }
}

/// An index that was written reads back as the same lines, so every id stays what it was.
pub proof fn law_index_round_trip(lines: Seq<Seq<char>>)
    requires
        forall|k: int| 0 <= k < lines.len() ==> !(#[trigger] lines[k]).contains('\n'),
    ensures
        index_lines(index_bytes(lines)) == lines,
{
    if lines.len() > 0 {
        reveal_strlit("\n");
        let t = text::join(lines, "\n"@) + "\n"@;
        text::lemma_lossy_of_text(t);
        lemma_split_joined(lines);
        assert(t.last() == '\n');
        assert(lines.push(Seq::<char>::empty()).drop_last() =~= lines);
        let b = vstd::utf8::encode_utf8(t);
        if b.len() == 0 {
            assert(vstd::utf8::decode_utf8(b) =~= Seq::<char>::empty());
            vstd::utf8::encode_utf8_decode_utf8(t);
        }
    } else {
        assert(index_lines(index_bytes(lines)) =~= lines);
    }
}

/// The test for one text.
pub open spec fn same_text(name: Seq<char>) -> spec_fn(Seq<char>) -> bool {
    |l: Seq<char>| l == name
}

/// The first line that is `name`, or the number of lines.
pub open spec fn line_of(lines: Seq<Seq<char>>, name: Seq<char>) -> int {
    bytes::find_from(lines, same_text(name), 0)
}

/// The lines with the first `from` turned into `to`.
pub open spec fn line_replaced(lines: Seq<Seq<char>>, from: Seq<char>, to: Seq<char>) -> Seq<
    Seq<char>,
> {
    let at = line_of(lines, from);
    if 0 <= at < lines.len() {
        lines.update(at, to)
    } else {
        lines
    }
}

/// The lines after one blank or rename; an append does nothing here.
pub open spec fn line_mutated(lines: Seq<Seq<char>>, kind: IndexKind) -> Seq<Seq<char>> {
    match kind {
        IndexKind::Append { .. } => lines,
        IndexKind::Blank { basename } => line_replaced(lines, basename, Seq::empty()),
        IndexKind::Rename { old_basename, new_basename } => line_replaced(
            lines,
            old_basename,
            new_basename,
        ),
    }
}

/// The lines after the first `n` edits.
pub open spec fn lines_mutated(lines: Seq<Seq<char>>, edits: Seq<IndexEdit>, n: int) -> Seq<
    Seq<char>,
>
    decreases n,
{
    if n <= 0 {
        lines
    } else {
        line_mutated(lines_mutated(lines, edits, n - 1), edits[n - 1].kind)
    }
}

/// The lines with the first `n` appended names that are not listed yet.
pub open spec fn lines_appended(lines: Seq<Seq<char>>, edits: Seq<IndexEdit>, n: int) -> Seq<
    Seq<char>,
>
    decreases n,
{
    if n <= 0 {
        lines
    } else {
        let before = lines_appended(lines, edits, n - 1);
        match edits[n - 1].kind {
            IndexKind::Append { basename } => if before.contains(basename) {
                before
            } else {
                before.push(basename)
            },
            _ => before,
        }
    }
}

/// The lines of an index after a batch of edits: blanks and renames in place, then appends.
pub open spec fn lines_merged(lines: Seq<Seq<char>>, edits: Seq<IndexEdit>) -> Seq<Seq<char>> {
    let n = edits.len() as int;
    lines_appended(lines_mutated(lines, edits, n), edits, n)
}

/// Blanks and renames never move a line: each line either stays or is rewritten in place.
pub proof fn law_mutations_keep_positions(lines: Seq<Seq<char>>, edits: Seq<IndexEdit>, n: int)
    requires
        0 <= n <= edits.len(),
    ensures
        lines_mutated(lines, edits, n).len() == lines.len(),
        forall|k: int|
            0 <= k < lines.len() ==> lines_mutated(lines, edits, n)[k] == lines[k] || exists|j: int|
                0 <= j < n && rewrites((#[trigger] edits[j]).kind, #[trigger] lines_mutated(
                    lines,
                    edits,
                    n,
                )[k]),
    decreases n,
{
    if n > 0 {
        law_mutations_keep_positions(lines, edits, n - 1);
        let before = lines_mutated(lines, edits, n - 1);
        let now = lines_mutated(lines, edits, n);
        assert forall|k: int| 0 <= k < lines.len() implies now[k] == lines[k] || exists|j: int|
            0 <= j < n && rewrites((#[trigger] edits[j]).kind, #[trigger] now[k]) by {
            if now[k] != before[k] {
                assert(rewrites(edits[n - 1].kind, now[k]));
            } else if before[k] != lines[k] {
                let j = choose|j: int|
                    0 <= j < n - 1 && rewrites((#[trigger] edits[j]).kind, before[k]);
                assert(rewrites(edits[j].kind, now[k]));
            }
        }
    }
}

/// The line that a blank or rename leaves behind.
pub open spec fn rewrites(kind: IndexKind, line: Seq<char>) -> bool {
    match kind {
        IndexKind::Append { .. } => false,
        IndexKind::Blank { .. } => line.len() == 0,
        IndexKind::Rename { new_basename, .. } => line == new_basename,
    }
}

/// Appends keep every line in its place, and list every appended name.
pub proof fn law_appends_keep_ids(lines: Seq<Seq<char>>, edits: Seq<IndexEdit>, n: int)
    requires
        0 <= n <= edits.len(),
    ensures
        lines.is_prefix_of(lines_appended(lines, edits, n)),
        forall|k: int|
            0 <= k < n ==> ((#[trigger] edits[k]).kind matches IndexKind::Append { basename }
                ==> lines_appended(lines, edits, n).contains(basename)),
    decreases n,
{
    let now = lines_appended(lines, edits, n);
    if n > 0 {
        law_appends_keep_ids(lines, edits, n - 1);
        let before = lines_appended(lines, edits, n - 1);
        assert(before.len() <= now.len() && forall|i: int|
            0 <= i < before.len() ==> before[i] == now[i]);
        assert(lines =~= now.take(lines.len() as int)) by {
            assert(lines =~= before.take(lines.len() as int));
        }
        assert forall|k: int| 0 <= k < n implies ((#[trigger] edits[k]).kind matches IndexKind::Append {
            basename,
        } ==> now.contains(basename)) by {
            if let IndexKind::Append { basename } = edits[k].kind {
                if k < n - 1 {
                    assert(before.contains(basename));
                    let i = choose|i: int| 0 <= i < before.len() && before[i] == basename;
                    assert(now[i] == basename);
                } else if !before.contains(basename) {
                    assert(now[now.len() - 1] == basename);
                }
            }
        }
    } else {
        assert(lines =~= now.take(lines.len() as int));
    }
}

/// The first line that is `name`.
fn find_line(lines: &Vec<String>, name: &str) -> (r: Option<usize>)
    ensures
        match r {
            Some(i) => line_of(text::texts(lines@), name@) == i && i < lines@.len(),
            None => line_of(text::texts(lines@), name@) == lines@.len(),
        },
{
    let ghost all = text::texts(lines@);
    let mut i: usize = 0;
    while i < lines.len()
        invariant
            i <= lines.len(),
            all == text::texts(lines@),
            forall|k: int| 0 <= k < i ==> !same_text(name@)(#[trigger] all[k]),
        decreases lines.len() - i,
    {
        assert(all[i as int] == lines@[i as int]@);
        if text::equal(lines[i].as_str(), name) {
            proof {
                bytes::lemma_find_from_is(all, same_text(name@), 0, i as int);
            }
            return Some(i);
        }
        i += 1;
    }
    proof {
        assert(all.len() == lines@.len());
        bytes::lemma_find_from_is(all, same_text(name@), 0, i as int);
    }
    None
}

/// Turn the first line that is `from` into `to`.
fn replace_line(lines: &mut Vec<String>, from: &str, to: String)
    ensures
        text::texts(final(lines)@) == line_replaced(text::texts(old(lines)@), from@, to@),
{
    let ghost before = lines@;
    match find_line(lines, from) {
        Some(i) => {
            let ghost t = to@;
            lines.set(i, to);
            assert(text::texts(lines@) =~= text::texts(before).update(i as int, t));
        },
        None => {
            assert(text::texts(before).len() == before.len());
        },
    }
}

/// The lines of an index after a batch of edits.
pub fn merge_index_lines(base: &[u8], edits: &Vec<PendingIndexEdit>) -> (r: Vec<String>)
    ensures
        text::texts(r@) == lines_merged(index_lines(base@), edit_views(edits@)),
{
    let mut lines = parse_index_lines(base);
    let ghost start = index_lines(base@);
    let ghost all = edit_views(edits@);
    let mut i: usize = 0;
    while i < edits.len()
        invariant
            i <= edits.len(),
            all == edit_views(edits@),
            text::texts(lines@) == lines_mutated(start, all, i as int),
        decreases edits.len() - i,
    {
        assert(all[i as int] == edits@[i as int]@);
        match &edits[i].kind {
            PendingIndexKind::Append { .. } => {},
            PendingIndexKind::Blank { basename } => {
                let empty = String::new();
                assert(empty@ =~= Seq::<char>::empty());
                replace_line(&mut lines, basename.as_str(), empty);
            },
            PendingIndexKind::Rename { old_basename, new_basename } => {
                replace_line(&mut lines, old_basename.as_str(), new_basename.clone());
            },
        }
        i += 1;
    }
    assert(all.len() == edits@.len());
    let ghost mutated = text::texts(lines@);
    let mut j: usize = 0;
    while j < edits.len()
        invariant
            j <= edits.len(),
            all == edit_views(edits@),
            text::texts(lines@) == lines_appended(mutated, all, j as int),
        decreases edits.len() - j,
    {
        assert(all[j as int] == edits@[j as int]@);
        if let PendingIndexKind::Append { basename } = &edits[j].kind {
            let ghost before = lines@;
            match find_line(&lines, basename.as_str()) {
                Some(k) => {
                    proof {
                        let v = text::texts(before);
                        bytes::lemma_find_from(v, same_text(basename@), 0);
                        assert(same_text(basename@)(v[k as int]));
                        assert(v.contains(basename@));
                    }
                },
                None => {
                    proof {
                        let v = text::texts(before);
                        assert(v.len() == before.len());
                        bytes::lemma_find_from(v, same_text(basename@), 0);
                        if v.contains(basename@) {
                            let q = choose|q: int| 0 <= q < v.len() && v[q] == basename@;
                            assert(!same_text(basename@)(v[q]));
                        }
                    }
                    lines.push(basename.clone());
                    assert(text::texts(lines@) =~= text::texts(before).push(basename@));
                },
            }
        }
        j += 1;
    }
    lines
}

/// What a round of rewriting an index does next.
#[derive(Debug, Clone)]
pub enum RewriteStep {
    /// The file already holds the result.
    Done,
    /// The result is longer than the file was: write it whole.
    Grow { content: Vec<u8> },
    /// The result fits: write it over the front, keep what others appended behind it.
    Shrink { content: Vec<u8> },
}

/// The bytes of an index after a batch of edits.
pub open spec fn index_merged(base: Seq<u8>, edits: Seq<IndexEdit>) -> Seq<u8> {
    index_bytes(lines_merged(index_lines(base), edits))
}

/// What a round of rewriting an index does next, given what was read and how long the file
/// was.
pub fn plan_index_rewrite(base: &[u8], edits: &Vec<PendingIndexEdit>, size: u64) -> (r: RewriteStep)
    ensures
        match r {
            RewriteStep::Done => index_merged(base@, edit_views(edits@)) == base@,
            RewriteStep::Grow { content } => content@ == index_merged(base@, edit_views(edits@))
                && content@ != base@ && content@.len() > size,
            RewriteStep::Shrink { content } => content@ == index_merged(base@, edit_views(edits@))
                && content@ != base@ && content@.len() <= size,
        },
{
    let lines = merge_index_lines(base, edits);
    let content = render_index_lines(&lines);
    if bytes::equal(content.as_slice(), base) {
        RewriteStep::Done
    } else if content.len() as u64 > size {
        RewriteStep::Grow { content }
    } else {
        RewriteStep::Shrink { content }
    }
}

/// What is cut out of an index after its front was overwritten and the tail copied behind it.
#[derive(Debug, Clone, Copy, PartialEq, Eq, Structural)]
pub struct StaleRange {
    pub offset: u64,
    pub len: u64,
    /// The size that the file has when nobody wrote meanwhile.
    pub expected: u64,
}

/// The stale range behind a new front of `prefix` bytes and a copied tail of `tail` bytes, in
/// a file that was `before` bytes long when it was read and is `now` bytes long.
pub fn stale_range(prefix: u64, tail: u64, before: u64, now: u64) -> (r: StaleRange)
    requires
        prefix <= before <= now,
        tail <= now - before,
    ensures
        r.offset == prefix + tail,
        r.len == before - prefix,
        r.expected == prefix + (now - before),
{
    StaleRange {
        offset: prefix + tail,
        len: before - prefix,
        expected: prefix + (now - before),
    }
}

/// The edits of one index file, each with the number of its operation.
#[derive(Debug)]
pub struct FileEdits {
    pub file_rel: String,
    pub ops: Vec<u32>,
    pub edits: Vec<PendingIndexEdit>,
}

/// The index files of the first `n` edits, in order of first mention.
pub open spec fn files_of(v: Seq<IndexEdit>, n: int) -> Seq<Seq<char>>
    decreases n,
{
    if n <= 0 {
        Seq::empty()
    } else {
        let before = files_of(v, n - 1);
        if before.contains(v[n - 1].file) {
            before
        } else {
            before.push(v[n - 1].file)
        }
    }
}

/// The positions among the first `n` edits that concern a file.
pub open spec fn positions_for(v: Seq<IndexEdit>, file: Seq<char>, n: int) -> Seq<int>
    decreases n,
{
    if n <= 0 {
        Seq::empty()
    } else if v[n - 1].file == file {
        positions_for(v, file, n - 1).push(n - 1)
    } else {
        positions_for(v, file, n - 1)
    }
}

/// The edits at the given positions.
pub open spec fn edits_at(v: Seq<IndexEdit>, at: Seq<int>) -> Seq<IndexEdit> {
    at.map_values(|k: int| v[k])
}

/// The operation numbers at the given positions.
pub open spec fn ops_at(ops: Seq<u32>, at: Seq<int>) -> Seq<u32> {
    at.map_values(|k: int| ops[k])
}

/// The group of one file.
pub open spec fn group_ok(
    g: FileEdits,
    ops: Seq<u32>,
    v: Seq<IndexEdit>,
    file: Seq<char>,
    n: int,
) -> bool {
    &&& g.file_rel@ == file
    &&& g.ops@ == ops_at(ops, positions_for(v, file, n))
    &&& edit_views(g.edits@) == edits_at(v, positions_for(v, file, n))
}

/// The index files of the edits, in order of first mention.
fn file_list(edits: &Vec<PendingIndexEdit>) -> (r: Vec<String>)
    ensures
        text::texts(r@) == files_of(edit_views(edits@), edits@.len() as int),
{
    let ghost all = edit_views(edits@);
    let mut out: Vec<String> = Vec::new();
    let mut i: usize = 0;
    assert(text::texts(out@) =~= Seq::<Seq<char>>::empty());
    while i < edits.len()
        invariant
            i <= edits.len(),
            all == edit_views(edits@),
            text::texts(out@) == files_of(all, i as int),
        decreases edits.len() - i,
    {
        assert(all[i as int] == edits@[i as int]@);
        let ghost v = text::texts(out@);
        let name = edits[i].file_rel.as_str();
        match find_line(&out, name) {
            Some(k) => {
                proof {
                    bytes::lemma_find_from(v, same_text(name@), 0);
                    assert(same_text(name@)(v[k as int]));
                    assert(v.contains(name@));
                }
            },
            None => {
                proof {
                    assert(v.len() == out@.len());
                    bytes::lemma_find_from(v, same_text(name@), 0);
                    if v.contains(name@) {
                        let q = choose|q: int| 0 <= q < v.len() && v[q] == name@;
                        assert(!same_text(name@)(v[q]));
                    }
                }
                let ghost before = out@;
                out.push(name.to_string());
                assert(text::texts(out@) =~= text::texts(before).push(name@));
            },
        }
        i += 1;
    }
    out
}

/// Group index edits by file: files in order of first mention, edits in plan order.
pub fn group_index_edits(ops: &Vec<u32>, edits: &Vec<PendingIndexEdit>) -> (r: Vec<FileEdits>)
    requires
        ops@.len() == edits@.len(),
    ensures
        r@.len() == files_of(edit_views(edits@), edits@.len() as int).len(),
        forall|k: int|
            0 <= k < r@.len() ==> group_ok(
                #[trigger] r@[k],
                ops@,
                edit_views(edits@),
                files_of(edit_views(edits@), edits@.len() as int)[k],
                edits@.len() as int,
            ),
{
    let files = file_list(edits);
    let ghost all = edit_views(edits@);
    let ghost list = files_of(all, edits@.len() as int);
    let mut out: Vec<FileEdits> = Vec::new();
    let mut f: usize = 0;
    assert(list.len() == files@.len());
    while f < files.len()
        invariant
            f <= files.len(),
            ops@.len() == edits@.len(),
            all == edit_views(edits@),
            list == files_of(all, edits@.len() as int),
            text::texts(files@) == list,
            list.len() == files@.len(),
            out@.len() == f,
            forall|k: int|
                0 <= k < out@.len() ==> group_ok(
                    #[trigger] out@[k],
                    ops@,
                    all,
                    list[k],
                    edits@.len() as int,
                ),
        decreases files.len() - f,
    {
        let mut own_ops: Vec<u32> = Vec::new();
        let mut own: Vec<PendingIndexEdit> = Vec::new();
        let ghost file = files@[f as int]@;
        assert(list[f as int] == file);
        let mut i: usize = 0;
        assert(own_ops@ =~= ops_at(ops@, positions_for(all, file, 0)));
        assert(edit_views(own@) =~= edits_at(all, positions_for(all, file, 0)));
        while i < edits.len()
            invariant
                i <= edits.len(),
                f < files@.len(),
                file == files@[f as int]@,
                ops@.len() == edits@.len(),
                all == edit_views(edits@),
                own_ops@ == ops_at(ops@, positions_for(all, file, i as int)),
                edit_views(own@) == edits_at(all, positions_for(all, file, i as int)),
            decreases edits.len() - i,
        {
            assert(all[i as int] == edits@[i as int]@);
            if text::equal(edits[i].file_rel.as_str(), files[f].as_str()) {
                let ghost before_ops = own_ops@;
                let ghost before = own@;
                let e = edits[i].duplicate();
                own_ops.push(ops[i]);
                own.push(e);
                proof {
                    let at = positions_for(all, file, i as int);
                    assert(own_ops@ =~= ops_at(ops@, at.push(i as int)));
                    assert(edit_views(own@) =~= edit_views(before).push(e@));
                    assert(edits_at(all, at.push(i as int)) =~= edits_at(all, at).push(
                        all[i as int],
                    ));
                }
            }
            i += 1;
        }
        out.push(FileEdits { file_rel: files[f].clone(), ops: own_ops, edits: own });
        f += 1;
    }
    out
}

/// Whether a group only appends.
pub open spec fn only_appends(v: Seq<IndexEdit>) -> bool {
    forall|k: int| 0 <= k < v.len() ==> (#[trigger] v[k]).kind is Append
}

/// Whether a group only appends, so that it can be written behind whatever is there.
pub fn is_append_only(v: &Vec<PendingIndexEdit>) -> (r: bool)
    ensures
        r == only_appends(edit_views(v@)),
{
    let ghost all = edit_views(v@);
    let mut i: usize = 0;
    while i < v.len()
        invariant
            i <= v.len(),
            all == edit_views(v@),
            forall|k: int| 0 <= k < i ==> (#[trigger] all[k]).kind is Append,
        decreases v.len() - i,
    {
        assert(all[i as int] == v@[i as int]@);
        if !matches!(v[i].kind, PendingIndexKind::Append { .. }) {
            assert(!(all[i as int].kind is Append));
            return false;
        }
        i += 1;
    }
    assert(all.len() == v@.len());
    true
}

/// The lines that a group of appends adds.
pub open spec fn append_text(v: Seq<IndexEdit>, n: int) -> Seq<char>
    decreases n,
{
    if n <= 0 {
        Seq::empty()
    } else {
        match v[n - 1].kind {
            IndexKind::Append { basename } => append_text(v, n - 1) + basename + "\n"@,
            _ => append_text(v, n - 1),
        }
    }
}

/// The lines that a group of appends adds to its index.
pub fn append_lines(v: &Vec<PendingIndexEdit>) -> (r: String)
    ensures
        r@ == append_text(edit_views(v@), v@.len() as int),
{
    let ghost all = edit_views(v@);
    let mut out = String::new();
    let mut i: usize = 0;
    assert(out@ =~= Seq::<char>::empty());
    while i < v.len()
        invariant
            i <= v.len(),
            all == edit_views(v@),
            out@ == append_text(all, i as int),
        decreases v.len() - i,
    {
        assert(all[i as int] == v@[i as int]@);
        if let PendingIndexKind::Append { basename } = &v[i].kind {
            out = text::cat3(out.as_str(), basename.as_str(), "\n");
        }
        i += 1;
    }
    out
}

/// Where an operation's name ended up.
#[derive(Debug, Clone, PartialEq, Eq)]
pub struct IndexPlacement {
    pub op_index: u32,
    pub folder: String,
    /// The line number, from 1.
    pub id: u32,
}

/// The model of an [`IndexPlacement`].
pub struct Placement {
    pub op: u32,
    pub folder: Seq<char>,
    pub id: u32,
}

impl View for IndexPlacement {
    type V = Placement;

    open spec fn view(&self) -> Placement {
        Placement { op: self.op_index, folder: self.folder@, id: self.id }
    }
}

/// The models of a vector of placements.
pub open spec fn placement_views(v: Seq<IndexPlacement>) -> Seq<Placement> {
    v.map_values(|p: IndexPlacement| p@)
}

/// The id of the line at a position; ids have 32 bits.
pub open spec fn id_of(position: int) -> u32 {
    if position as u32 == u32::MAX {
        0
    } else {
        ((position as u32) + 1) as u32
    }
}

/// The id of the line at a position.
fn id_at(position: usize) -> (r: u32)
    ensures
        r == id_of(position as int),
{
    let n: u32 = position as u32;
    if n == u32::MAX {
        0
    } else {
        n + 1
    }
}

/// A name in the folder of an index.
pub open spec fn beside_index(file: Seq<char>, basename: Seq<char>) -> Seq<char> {
    if file == ".index"@ {
        basename
    } else if "/.index"@.is_suffix_of(file) {
        file.take(file.len() - 7) + "/"@ + basename
    } else {
        basename
    }
}

/// A name in the folder of an index.
fn pending_basename_path(file_rel: &str, basename: &str) -> (r: String)
    ensures
        r@ == beside_index(file_rel@, basename@),
{
    if text::equal(file_rel, ".index") {
        basename.to_string()
    } else if text::ends_with(file_rel, "/.index") {
        proof {
            reveal_strlit("/.index");
        }
        let x = text::chars_of(file_rel);
        let folder = text::string_of(
            vstd::slice::slice_subrange(x.as_slice(), 0, x.len() - 7),
        );
        assert(folder@ =~= file_rel@.take(file_rel@.len() - 7));
        text::cat3(folder.as_str(), "/", basename)
    } else {
        basename.to_string()
    }
}

/// The name that an edit leaves in its index.
pub open spec fn final_name(kind: IndexKind) -> Seq<char> {
    match kind {
        IndexKind::Append { basename } => basename,
        IndexKind::Blank { basename } => basename,
        IndexKind::Rename { new_basename, .. } => new_basename,
    }
}

/// The last line that is `name` among the first `n`, or -1.
pub open spec fn last_line_of(lines: Seq<Seq<char>>, name: Seq<char>, n: int) -> int
    decreases n,
{
    if n <= 0 {
        -1
    } else if lines[n - 1] == name {
        n - 1
    } else {
        last_line_of(lines, name, n - 1)
    }
}

/// The placements of the first `n` edits of a file that now has the given lines.
pub open spec fn placements_of(
    file: Seq<char>,
    lines: Seq<Seq<char>>,
    ops: Seq<u32>,
    edits: Seq<IndexEdit>,
    n: int,
) -> Seq<Placement>
    decreases n,
{
    if n <= 0 {
        Seq::empty()
    } else {
        let before = placements_of(file, lines, ops, edits, n - 1);
        let name = final_name(edits[n - 1].kind);
        let at = last_line_of(lines, name, lines.len() as int);
        if at < 0 {
            before
        } else {
            before.push(
                Placement {
                    op: ops[n - 1],
                    folder: paths::folder_and_base(beside_index(file, name)).0,
                    id: id_of(at),
                },
            )
        }
    }
}

/// The last line that is `name`.
fn find_last_line(lines: &Vec<String>, name: &str) -> (r: Option<usize>)
    ensures
        match r {
            Some(i) => last_line_of(text::texts(lines@), name@, lines@.len() as int) == i,
            None => last_line_of(text::texts(lines@), name@, lines@.len() as int) < 0,
        },
{
    let ghost all = text::texts(lines@);
    let mut n: usize = lines.len();
    while n > 0
        invariant
            n <= lines.len(),
            all == text::texts(lines@),
            last_line_of(all, name@, lines@.len() as int) == last_line_of(all, name@, n as int),
        decreases n,
    {
        assert(all[n - 1] == lines@[n - 1]@);
        if text::equal(lines[n - 1].as_str(), name) {
            return Some(n - 1);
        }
        n -= 1;
    }
    None
}

/// Where the names of a group ended up in the freshly read index.
pub fn place_edits(group: &FileEdits, fresh: &[u8]) -> (r: Vec<IndexPlacement>)
    requires
        group.ops@.len() == group.edits@.len(),
    ensures
        placement_views(r@) == placements_of(
            group.file_rel@,
            index_lines(fresh@),
            group.ops@,
            edit_views(group.edits@),
            group.edits@.len() as int,
        ),
{
    let lines = parse_index_lines(fresh);
    let ghost l = index_lines(fresh@);
    let ghost all = edit_views(group.edits@);
    let mut out: Vec<IndexPlacement> = Vec::new();
    let mut i: usize = 0;
    assert(l.len() == lines@.len());
    assert(placement_views(out@) =~= Seq::<Placement>::empty());
    while i < group.edits.len()
        invariant
            i <= group.edits.len(),
            group.ops@.len() == group.edits@.len(),
            all == edit_views(group.edits@),
            text::texts(lines@) == l,
            l.len() == lines@.len(),
            placement_views(out@) == placements_of(
                group.file_rel@,
                l,
                group.ops@,
                all,
                i as int,
            ),
        decreases group.edits.len() - i,
    {
        assert(all[i as int] == group.edits@[i as int]@);
        let name: &str = match &group.edits[i].kind {
            PendingIndexKind::Append { basename } => basename.as_str(),
            PendingIndexKind::Blank { basename } => basename.as_str(),
            PendingIndexKind::Rename { new_basename, .. } => new_basename.as_str(),
        };
        match find_last_line(&lines, name) {
            Some(at) => {
                let path = pending_basename_path(group.file_rel.as_str(), name);
                let (folder, _) = split_folder_basename(path.as_str());
                let p = IndexPlacement { op_index: group.ops[i], folder, id: id_at(at) };
                let ghost before = out@;
                out.push(p);
                assert(placement_views(out@) =~= placement_views(before).push(p@));
            },
            None => {},
        }
        i += 1;
    }
    out
}

/// The id of `basename` in an index, if it is listed.
pub open spec fn listed_id(index: Seq<u8>, basename: Seq<char>) -> Option<u32> {
    let lines = index_lines(index);
    let at = line_of(lines, basename);
    if at < lines.len() {
        Some(id_of(at))
    } else {
        None
    }
}

/// The id of `basename` in an index, if there is an index and it is listed.
pub fn index_id(index: Option<Vec<u8>>, basename: &str) -> (r: Option<u32>)
    ensures
        r == (match index {
            Some(b) => listed_id(b@, basename@),
            None => None,
        }),
{
    match index {
        None => None,
        Some(b) => {
            let lines = parse_index_lines(b.as_slice());
            assert(text::texts(lines@).len() == lines@.len());
            match find_line(&lines, basename) {
                Some(at) => Some(id_at(at)),
                None => None,
            }
        },
    }
}

/// The numeric selector of a line in the index of a folder.
pub open spec fn id_selector(notebook: Seq<char>, folder: Seq<char>, id: u32) -> Seq<char> {
    if folder.len() == 0 {
        notebook + ":"@ + text::decimal(id as nat)
    } else {
        notebook + ":"@ + folder + "/"@ + text::decimal(id as nat)
    }
}

/// The numeric selector of a line in the index of a folder.
pub fn numeric_selector(notebook: &str, folder: &str, id: u32) -> (r: String)
    ensures
        r@ == id_selector(notebook@, folder@, id),
{
    let digits = text::decimal_of(id as u64);
    if folder.is_empty() {
        text::cat3(notebook, ":", digits.as_str())
    } else {
        text::cat5(notebook, ":", folder, "/", digits.as_str())
    }
}

/// A name that no edit removes or renames keeps its line, and so its id.
pub proof fn law_other_ids_stay(lines: Seq<Seq<char>>, edits: Seq<IndexEdit>, k: int)
    requires
        0 <= k < lines.len(),
        forall|j: int| 0 <= j < edits.len() ==> !removes((#[trigger] edits[j]).kind, lines[k]),
    ensures
        k < lines_merged(lines, edits).len(),
        lines_merged(lines, edits)[k] == lines[k],
{
    let n = edits.len() as int;
    lemma_mutated_keeps(lines, edits, n, k);
    let m = lines_mutated(lines, edits, n);
    law_appends_keep_ids(m, edits, n);
    assert(m[k] == lines_appended(m, edits, n).take(m.len() as int)[k]);
}

/// The name that an edit takes out of its line.
pub open spec fn removes(kind: IndexKind, line: Seq<char>) -> bool {
    match kind {
        IndexKind::Append { .. } => false,
        IndexKind::Blank { basename } => basename == line,
        IndexKind::Rename { old_basename, .. } => old_basename == line,
    }
}

proof fn lemma_mutated_keeps(lines: Seq<Seq<char>>, edits: Seq<IndexEdit>, n: int, k: int)
    requires
        0 <= k < lines.len(),
        0 <= n <= edits.len(),
        forall|j: int| 0 <= j < edits.len() ==> !removes((#[trigger] edits[j]).kind, lines[k]),
    ensures
        lines_mutated(lines, edits, n).len() == lines.len(),
        lines_mutated(lines, edits, n)[k] == lines[k],
    decreases n,
{
    if n > 0 {
        lemma_mutated_keeps(lines, edits, n - 1, k);
        let before = lines_mutated(lines, edits, n - 1);
        assert(!removes(edits[n - 1].kind, lines[k]));
        match edits[n - 1].kind {
            IndexKind::Append { .. } => {},
            IndexKind::Blank { basename } => {
                bytes::lemma_find_from(before, same_text(basename), 0);
            },
            IndexKind::Rename { old_basename, .. } => {
                bytes::lemma_find_from(before, same_text(old_basename), 0);
            },
        }
    }
}

/// The bytes of a line.
pub open spec fn line_size(line: Seq<char>) -> nat {
    vstd::utf8::encode_utf8(line).len()
}

/// The bytes of the first `n` lines, each with its line feed.
pub open spec fn lines_size(lines: Seq<Seq<char>>, n: int) -> nat
    decreases n,
{
    if n <= 0 {
        0
    } else {
        lines_size(lines, n - 1) + line_size(lines[n - 1]) + 1
    }
}

proof fn lemma_join_size(lines: Seq<Seq<char>>)
    requires
        lines.len() > 0,
    ensures
        vstd::utf8::encode_utf8(text::join(lines, "\n"@)).len() + 1 == lines_size(
            lines,
            lines.len() as int,
        ),
    decreases lines.len(),
{
    reveal_strlit("\n");
    let n = lines.len() as int;
    lemma_feed_size();
    if n == 1 {
        assert(lines_size(lines, 0) == 0);
    } else {
        let init = lines.drop_last();
        lemma_join_size(init);
        lemma_lines_size_prefix(lines, init, n - 1);
        text::lemma_encode_concat(text::join(init, "\n"@) + "\n"@, lines.last());
        text::lemma_encode_concat(text::join(init, "\n"@), "\n"@);
    }
}

proof fn lemma_feed_size()
    ensures
        vstd::utf8::encode_utf8("\n"@).len() == 1,
{
    reveal_strlit("\n");
    assert("\n"@.drop_first() =~= Seq::<char>::empty());
    assert(vstd::utf8::encode_utf8("\n"@.drop_first()) =~= Seq::<u8>::empty());
    assert("\n"@[0] == '\n');
    assert(vstd::utf8::encode_scalar('\n' as u32).len() == 1);
}

proof fn lemma_lines_size_prefix(a: Seq<Seq<char>>, b: Seq<Seq<char>>, n: int)
    requires
        0 <= n <= a.len(),
        n <= b.len(),
        forall|k: int| 0 <= k < n ==> a[k] == b[k],
    ensures
        lines_size(a, n) == lines_size(b, n),
    decreases n,
{
    if n > 0 {
        lemma_lines_size_prefix(a, b, n - 1);
    }
}

/// The size of an index is that of its lines.
pub proof fn law_index_size(lines: Seq<Seq<char>>)
    ensures
        index_bytes(lines).len() == lines_size(lines, lines.len() as int),
{
    if lines.len() > 0 {
        lemma_join_size(lines);
        lemma_feed_size();
        text::lemma_encode_concat(text::join(lines, "\n"@), "\n"@);
    }
}

proof fn lemma_update_size(lines: Seq<Seq<char>>, at: int, to: Seq<char>, n: int)
    requires
        0 <= at < lines.len(),
        0 <= n <= lines.len(),
        line_size(to) <= line_size(lines[at]),
    ensures
        lines_size(lines.update(at, to), n) <= lines_size(lines, n),
    decreases n,
{
    if n > 0 {
        lemma_update_size(lines, at, to, n - 1);
    }
}

/// An edit that does not make a line longer.
pub open spec fn never_longer(kind: IndexKind) -> bool {
    match kind {
        IndexKind::Append { .. } => true,
        IndexKind::Blank { .. } => true,
        IndexKind::Rename { old_basename, new_basename } => line_size(new_basename) <= line_size(
            old_basename,
        ),
    }
}

/// Blanks, and renames to names that are not longer, never make an index longer, so that they
/// can be written over its front.
pub proof fn law_rewrite_never_grows(lines: Seq<Seq<char>>, edits: Seq<IndexEdit>, n: int)
    requires
        0 <= n <= edits.len(),
        forall|j: int| 0 <= j < edits.len() ==> never_longer((#[trigger] edits[j]).kind),
    ensures
        index_bytes(lines_mutated(lines, edits, n)).len() <= index_bytes(lines).len(),
    decreases n,
{
    if n > 0 {
        law_rewrite_never_grows(lines, edits, n - 1);
        let before = lines_mutated(lines, edits, n - 1);
        let now = lines_mutated(lines, edits, n);
        assert(never_longer(edits[n - 1].kind));
        law_index_size(before);
        law_index_size(now);
        match edits[n - 1].kind {
            IndexKind::Append { .. } => {},
            IndexKind::Blank { basename } => {
                let at = line_of(before, basename);
                bytes::lemma_find_from(before, same_text(basename), 0);
                assert(vstd::utf8::encode_utf8(Seq::<char>::empty()) =~= Seq::<u8>::empty());
                if at < before.len() {
                    lemma_update_size(before, at, Seq::empty(), before.len() as int);
                }
            },
            IndexKind::Rename { old_basename, new_basename } => {
                let at = line_of(before, old_basename);
                bytes::lemma_find_from(before, same_text(old_basename), 0);
                if at < before.len() {
                    assert(same_text(old_basename)(before[at]));
                    lemma_update_size(before, at, new_basename, before.len() as int);
                }
            },
        }
    }
}

} // verus!
