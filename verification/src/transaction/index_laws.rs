//! What edits do to the lines of an index, and which ids they report.

use vstd::prelude::*;

use crate::bytes;
use crate::paths;
use crate::path_laws;
use crate::transaction::apply::Meta;
use crate::transaction::commit;
use crate::transaction::index;
use crate::transaction::index::{IndexEdit, IndexKind, Placement};
use crate::transaction::resolve_laws;

verus! {

/// Line `k` is the first that is `name`.
pub open spec fn first_line(lines: Seq<Seq<char>>, name: Seq<char>, k: int) -> bool {
    &&& 0 <= k < lines.len()
    &&& lines[k] == name
    &&& forall|j: int| 0 <= j < k ==> #[trigger] lines[j] != name
}

proof fn lemma_first_line(lines: Seq<Seq<char>>, name: Seq<char>, k: int)
    ensures
        first_line(lines, name, k) ==> index::line_of(lines, name) == k,
        !lines.contains(name) ==> index::line_of(lines, name) == lines.len(),
{
    let p = index::same_text(name);
    if first_line(lines, name, k) {
        assert forall|j: int| 0 <= j < k implies !p(#[trigger] lines[j]) by {
            assert(lines[j] != name);
        }
        bytes::lemma_find_from_is(lines, p, 0, k);
    }
    if !lines.contains(name) {
        assert forall|j: int| 0 <= j < lines.len() implies !p(#[trigger] lines[j]) by {
            if lines[j] == name {
                assert(lines.contains(name));
            }
        }
        bytes::lemma_find_from_is(lines, p, 0, lines.len() as int);
    }
}

/// Listing a name puts it on a new last line, so that its id is the next number; a name that is
/// listed already stays where it is.
pub proof fn law_listed_name_gets_the_next_id(
    lines: Seq<Seq<char>>,
    file: Seq<char>,
    basename: Seq<char>,
)
    ensures
        ({
            let edit = IndexEdit { file, kind: IndexKind::Append { basename } };
            index::lines_merged(lines, seq![edit]) == (if lines.contains(basename) {
                lines
            } else {
                lines.push(basename)
            })
        }),
{
    reveal_with_fuel(index::lines_mutated, 2);
    reveal_with_fuel(index::lines_appended, 2);
}

/// Blanking a name empties its first line and no other: no line is taken out, so that no id
/// changes and none is given again.
pub proof fn law_blanked_line_stays_empty(
    lines: Seq<Seq<char>>,
    file: Seq<char>,
    basename: Seq<char>,
    k: int,
)
    ensures
        ({
            let edit = IndexEdit { file, kind: IndexKind::Blank { basename } };
            &&& first_line(lines, basename, k) ==> index::lines_merged(lines, seq![edit])
                == lines.update(k, Seq::empty())
            &&& !lines.contains(basename) ==> index::lines_merged(lines, seq![edit]) == lines
        }),
{
    reveal_with_fuel(index::lines_mutated, 2);
    reveal_with_fuel(index::lines_appended, 2);
    lemma_first_line(lines, basename, k);
}

/// Renaming changes the first line with the old name and no other, so that the id stays.
pub proof fn law_renamed_line_keeps_its_id(
    lines: Seq<Seq<char>>,
    file: Seq<char>,
    old_basename: Seq<char>,
    new_basename: Seq<char>,
    k: int,
)
    ensures
        ({
            let edit = IndexEdit { file, kind: IndexKind::Rename { old_basename, new_basename } };
            &&& first_line(lines, old_basename, k) ==> index::lines_merged(lines, seq![edit])
                == lines.update(k, new_basename)
            &&& !lines.contains(old_basename) ==> index::lines_merged(lines, seq![edit]) == lines
        }),
{
    reveal_with_fuel(index::lines_mutated, 2);
    reveal_with_fuel(index::lines_appended, 2);
    lemma_first_line(lines, old_basename, k);
}

proof fn lemma_mutated_behind(
    lines: Seq<Seq<char>>,
    first: IndexEdit,
    rest: Seq<IndexEdit>,
    n: int,
)
    requires
        0 <= n <= rest.len(),
    ensures
        index::lines_mutated(lines, seq![first] + rest, n + 1) == index::lines_mutated(
            index::line_mutated(lines, first.kind),
            rest,
            n,
        ),
    decreases n,
{
    let all = seq![first] + rest;
    if n == 0 {
        reveal_with_fuel(index::lines_mutated, 2);
        assert(all[0] == first);
    } else {
        lemma_mutated_behind(lines, first, rest, n - 1);
        assert(all[n] == rest[n - 1]);
    }
}

proof fn lemma_appended_behind(
    lines: Seq<Seq<char>>,
    first: IndexEdit,
    rest: Seq<IndexEdit>,
    n: int,
)
    requires
        0 <= n <= rest.len(),
        !(first.kind is Append),
    ensures
        index::lines_appended(lines, seq![first] + rest, n + 1) == index::lines_appended(
            lines,
            rest,
            n,
        ),
    decreases n,
{
    let all = seq![first] + rest;
    if n == 0 {
        reveal_with_fuel(index::lines_appended, 2);
        assert(all[0] == first);
    } else {
        lemma_appended_behind(lines, first, rest, n - 1);
        assert(all[n] == rest[n - 1]);
    }
}

proof fn lemma_mutated_prefix(lines: Seq<Seq<char>>, a: Seq<IndexEdit>, last: IndexEdit, n: int)
    requires
        0 <= n <= a.len(),
    ensures
        index::lines_mutated(lines, a.push(last), n) == index::lines_mutated(lines, a, n),
        index::lines_appended(lines, a.push(last), n) == index::lines_appended(lines, a, n),
    decreases n,
{
    if n > 0 {
        lemma_mutated_prefix(lines, a, last, n - 1);
        assert(a.push(last)[n - 1] == a[n - 1]);
    }
}

/// A batch is made edit by edit: a blank or a rename in front is made first, and an append at
/// the end is made last, each as it is made alone.
pub proof fn law_batch_is_made_edit_by_edit(
    lines: Seq<Seq<char>>,
    first: IndexEdit,
    rest: Seq<IndexEdit>,
    last: IndexEdit,
)
    ensures
        !(first.kind is Append) ==> index::lines_merged(lines, seq![first] + rest)
            == index::lines_merged(index::lines_merged(lines, seq![first]), rest),
        last.kind is Append ==> index::lines_merged(lines, rest.push(last)) == index::lines_merged(
            index::lines_merged(lines, rest),
            seq![last],
        ),
        index::lines_merged(lines, Seq::empty()) == lines,
{
    let n = rest.len() as int;
    if !(first.kind is Append) {
        let one = index::line_mutated(lines, first.kind);
        reveal_with_fuel(index::lines_mutated, 2);
        reveal_with_fuel(index::lines_appended, 2);
        assert(seq![first][0] == first);
        assert(index::lines_merged(lines, seq![first]) == one);
        lemma_mutated_behind(lines, first, rest, n);
        lemma_appended_behind(index::lines_mutated(one, rest, n), first, rest, n);
        assert((seq![first] + rest).len() == n + 1);
    }
    if last.kind is Append {
        let all = rest.push(last);
        assert(all[n] == last);
        lemma_mutated_prefix(lines, rest, last, n);
        let m = index::lines_mutated(lines, rest, n);
        assert(index::lines_mutated(lines, all, n + 1) == m);
        lemma_mutated_prefix(m, rest, last, n);
        let merged = index::lines_appended(m, rest, n);
        match last.kind {
            IndexKind::Append { basename } => {
                law_listed_name_gets_the_next_id(merged, last.file, basename);
                assert(IndexEdit { file: last.file, kind: IndexKind::Append { basename } } == last);
            },
            _ => {},
        }
    }
}

/// An index on disk is edited line by line: what it lists afterwards are its lines with the
/// edits made.
pub proof fn law_index_is_edited_by_lines(names: Seq<Seq<char>>, edits: Seq<IndexEdit>)
    requires
        resolve_laws::on_one_line(names),
        resolve_laws::on_one_line(index::lines_merged(names, edits)),
    ensures
        index::index_merged(vstd::utf8::encode_utf8(resolve_laws::listing(names)), edits)
            == vstd::utf8::encode_utf8(
            resolve_laws::listing(index::lines_merged(names, edits)),
        ),
{
    resolve_laws::law_index_lists_names(names);
    resolve_laws::law_index_lists_names(index::lines_merged(names, edits));
}

/// The names that a group of appends lists.
pub open spec fn appended_names(v: Seq<IndexEdit>) -> Seq<Seq<char>>
    decreases v.len(),
{
    if v.len() == 0 {
        Seq::empty()
    } else {
        match v.last().kind {
            IndexKind::Append { basename } => appended_names(v.drop_last()).push(basename),
            _ => appended_names(v.drop_last()),
        }
    }
}

/// What a group of appends writes behind an index is one line for each name, in order, so that
/// the index then lists them behind those that it listed.
pub proof fn law_appends_are_written_behind(names: Seq<Seq<char>>, edits: Seq<IndexEdit>)
    ensures
        resolve_laws::listing(names) + index::append_text(edits, edits.len() as int)
            == resolve_laws::listing(names + appended_names(edits)),
    decreases edits.len(),
{
    reveal_strlit("\n");
    assert("\n"@ =~= seq!['\n']);
    if edits.len() == 0 {
        assert(names + appended_names(edits) =~= names);
        assert(resolve_laws::listing(names) + index::append_text(edits, 0)
            =~= resolve_laws::listing(names));
    } else {
        let n = edits.len() as int;
        let init = edits.drop_last();
        law_appends_are_written_behind(names, init);
        lemma_append_text(edits, init, n - 1);
        let before = names + appended_names(init);
        match edits.last().kind {
            IndexKind::Append { basename } => {
                let now = names + appended_names(edits);
                assert(now =~= before.push(basename));
                assert(now.drop_last() =~= before);
                assert(resolve_laws::listing(names) + (index::append_text(init, n - 1) + basename
                    + "\n"@) =~= resolve_laws::listing(names) + index::append_text(init, n - 1)
                    + basename + seq!['\n']);
            },
            _ => {},
        }
    }
}

proof fn lemma_append_text(v: Seq<IndexEdit>, w: Seq<IndexEdit>, n: int)
    requires
        v.len() > 0,
        w == v.drop_last(),
        0 <= n <= w.len(),
    ensures
        index::append_text(v, n) == index::append_text(w, n),
    decreases n,
{
    if n > 0 {
        lemma_append_text(v, w, n - 1);
        assert(w[n - 1] == v[n - 1]);
    }
}

/// A name beside an index is in the folder of the index.
pub proof fn law_name_beside_an_index(folder: Seq<char>, name: Seq<char>)
    ensures
        index::beside_index(resolve_laws::inside(folder, ".index"@), name) == resolve_laws::inside(
            folder,
            name,
        ),
{
    reveal_strlit(".index");
    reveal_strlit("/.index");
    reveal_strlit("/");
    assert("/"@ =~= seq!['/']);
    let file = resolve_laws::inside(folder, ".index"@);
    if folder.len() > 0 {
        assert(file.len() == folder.len() + 7);
        assert(file.take(file.len() - 7) =~= folder);
        assert("/.index"@ =~= file.skip(file.len() - 7));
        assert("/.index"@.is_suffix_of(file));
    }
}

proof fn lemma_last_line(lines: Seq<Seq<char>>, name: Seq<char>, n: int)
    requires
        0 <= n <= lines.len(),
    ensures
        ({
            let at = index::last_line_of(lines, name, n);
            &&& -1 <= at < n
            &&& at >= 0 ==> lines[at] == name
            &&& forall|k: int| at < k < n ==> #[trigger] lines[k] != name
        }),
    decreases n,
{
    if n > 0 && lines[n - 1] != name {
        lemma_last_line(lines, name, n - 1);
    }
}

/// Every place that is reported is one where a name of the group stands: the last line with
/// that name has the id, and the folder is that of the index.
pub proof fn law_reported_place_holds_the_name(
    folder: Seq<char>,
    lines: Seq<Seq<char>>,
    ops: Seq<u32>,
    edits: Seq<IndexEdit>,
    n: int,
    i: int,
)
    requires
        0 <= n <= edits.len(),
        lines.len() < u32::MAX,
        forall|k: int|
            0 <= k < edits.len() ==> !index::final_name((#[trigger] edits[k]).kind).contains('/'),
        0 <= i < index::placements_of(
            resolve_laws::inside(folder, ".index"@),
            lines,
            ops,
            edits,
            n,
        ).len(),
    ensures
        ({
            let file = resolve_laws::inside(folder, ".index"@);
            let p = index::placements_of(file, lines, ops, edits, n)[i];
            &&& p.folder == folder
            &&& 1 <= p.id <= lines.len()
            &&& exists|k: int|
                0 <= k < n && p.op == ops[k] && lines[p.id - 1] == index::final_name(
                    (#[trigger] edits[k]).kind,
                ) && forall|j: int|
                    p.id <= j < lines.len() ==> #[trigger] lines[j] != lines[p.id - 1]
        }),
    decreases n,
{
    let file = resolve_laws::inside(folder, ".index"@);
    let all = index::placements_of(file, lines, ops, edits, n);
    let before = index::placements_of(file, lines, ops, edits, n - 1);
    if i < before.len() {
        law_reported_place_holds_the_name(folder, lines, ops, edits, n - 1, i);
        assert(all[i] == before[i]);
    } else {
        let name = index::final_name(edits[n - 1].kind);
        let at = index::last_line_of(lines, name, lines.len() as int);
        lemma_last_line(lines, name, lines.len() as int);
        law_name_beside_an_index(folder, name);
        reveal_strlit("/");
        assert("/"@ =~= seq!['/']);
        assert(!index::final_name(edits[n - 1].kind).contains('/'));
        path_laws::law_path_splits_at_the_last_slash(folder, name);
        if folder.len() == 0 {
            assert(folder =~= Seq::<char>::empty());
        }
        assert(index::id_of(at) == at + 1);
        let p = all[i];
        assert(p.op == ops[n - 1] && lines[p.id - 1] == index::final_name(edits[n - 1].kind));
    }
}

/// Every name of a group that stands in the index has its place reported.
pub proof fn law_standing_name_is_reported(
    file: Seq<char>,
    lines: Seq<Seq<char>>,
    ops: Seq<u32>,
    edits: Seq<IndexEdit>,
    n: int,
    k: int,
)
    requires
        0 <= k < n <= edits.len(),
        lines.contains(index::final_name(edits[k].kind)),
    ensures
        exists|i: int|
            0 <= i < index::placements_of(file, lines, ops, edits, n).len() && (
            #[trigger] index::placements_of(file, lines, ops, edits, n)[i]).op == ops[k],
    decreases n,
{
    let all = index::placements_of(file, lines, ops, edits, n);
    let before = index::placements_of(file, lines, ops, edits, n - 1);
    if k < n - 1 {
        law_standing_name_is_reported(file, lines, ops, edits, n - 1, k);
        let i = choose|i: int| 0 <= i < before.len() && (#[trigger] before[i]).op == ops[k];
        assert(all[i] == before[i]);
    } else {
        let name = index::final_name(edits[k].kind);
        lemma_last_line(lines, name, lines.len() as int);
        let j = choose|j: int| 0 <= j < lines.len() && lines[j] == name;
        assert(lines[j] == name);
        assert(index::last_line_of(lines, name, lines.len() as int) >= j);
        assert(all[before.len() as int].op == ops[k]);
    }
}

/// Each index file that edits concern is named once, and no other; the edits of a file are
/// those that name it, in order.
pub proof fn law_edits_are_grouped_by_file(v: Seq<IndexEdit>, n: int, file: Seq<char>)
    requires
        0 <= n <= v.len(),
    ensures
        index::files_of(v, n).no_duplicates(),
        index::files_of(v, n).contains(file) <==> exists|k: int|
            0 <= k < n && (#[trigger] v[k]).file == file,
        ({
            let at = index::positions_for(v, file, n);
            &&& forall|i: int, j: int| 0 <= i < j < at.len() ==> #[trigger] at[i] < #[trigger] at[j]
            &&& forall|k: int|
                at.contains(k) <==> 0 <= k < n && (#[trigger] v[k]).file == file
        }),
    decreases n,
{
    let files = index::files_of(v, n);
    let at = index::positions_for(v, file, n);
    if n > 0 {
        law_edits_are_grouped_by_file(v, n - 1, file);
        let before = index::files_of(v, n - 1);
        let x = v[n - 1].file;
        if !before.contains(x) {
            assert forall|i: int, j: int|
                0 <= i < files.len() && 0 <= j < files.len() && i != j implies files[i]
                != files[j] by {
                if i < before.len() {
                    assert(before.contains(before[i]));
                }
                if j < before.len() {
                    assert(before.contains(before[j]));
                }
            }
            if before.contains(file) {
                let i = choose|i: int| 0 <= i < before.len() && before[i] == file;
                assert(files[i] == file);
            }
            if x == file {
                assert(files[before.len() as int] == file);
            }
            if files.contains(file) {
                let i = choose|i: int| 0 <= i < files.len() && files[i] == file;
                if i < before.len() {
                    assert(before.contains(file));
                } else {
                    assert(v[n - 1].file == file);
                }
            }
        } else if x == file {
            assert(v[n - 1].file == file);
        }
        let early = index::positions_for(v, file, n - 1);
        assert forall|k: int| at.contains(k) <==> 0 <= k < n && (#[trigger] v[k]).file == file by {
            if x == file {
                if early.contains(k) {
                    let i = choose|i: int| 0 <= i < early.len() && early[i] == k;
                    assert(at[i] == k);
                }
                if k == n - 1 {
                    assert(at[early.len() as int] == k);
                }
                if at.contains(k) {
                    let i = choose|i: int| 0 <= i < at.len() && at[i] == k;
                    if i < early.len() {
                        assert(early.contains(k));
                    }
                }
            }
        }
        assert forall|i: int, j: int| 0 <= i < j < at.len() implies #[trigger] at[i]
            < #[trigger] at[j] by {
            if x == file && j == early.len() {
                assert(early.contains(early[i]));
                assert(v[early[i]].file == file);
            }
        }
    }
}

/// Operations are reported one by one, in order: each with its own number, path, effect and
/// fingerprint. One whose name stands in an index is reported by the id of its line, with the
/// selector that names that line.
pub proof fn law_outcomes_report_each_operation(
    notebook: Seq<char>,
    meta: Meta,
    i: int,
    placements: Seq<Placement>,
    index_bytes: Option<Seq<u8>>,
)
    requires
        0 <= i <= u32::MAX,
    ensures
        ({
            let o = commit::outcome_of(notebook, meta, i, placements, index_bytes);
            &&& o.index == i
            &&& o.path == meta.path
            &&& o.noop == meta.noop
            &&& o.fingerprint == meta.fingerprint
            &&& forall|k: int|
                0 <= k < placements.len() && (#[trigger] placements[k]).op == i && (forall|j: int|
                    k < j < placements.len() ==> (#[trigger] placements[j]).op != i)
                    ==> o.numeric_id == Some(placements[k].id) && o.selector == Some(
                    index::id_selector(notebook, placements[k].folder, placements[k].id),
                )
            &&& (forall|k: int| 0 <= k < placements.len() ==> (#[trigger] placements[k]).op != i)
                ==> o.selector == meta.selector && (meta.path is Some && index_bytes is Some
                ==> o.numeric_id == index::listed_id(
                index_bytes->Some_0,
                paths::folder_and_base(meta.path->Some_0).1,
            ))
        }),
{
    let o = commit::outcome_of(notebook, meta, i, placements, index_bytes);
    let n = placements.len() as int;
    assert forall|k: int|
        0 <= k < placements.len() && (#[trigger] placements[k]).op == i && (forall|j: int|
            k < j < placements.len() ==> (#[trigger] placements[j]).op != i) implies o.numeric_id
        == Some(placements[k].id) && o.selector == Some(
        index::id_selector(notebook, placements[k].folder, placements[k].id),
    ) by {
        lemma_last_placement(placements, i as u32, n, k);
    }
    if forall|k: int| 0 <= k < placements.len() ==> (#[trigger] placements[k]).op != i {
        lemma_no_placement(placements, i as u32, n);
    }
}

proof fn lemma_last_placement(v: Seq<Placement>, op: u32, n: int, k: int)
    requires
        0 <= k < n <= v.len(),
        v[k].op == op,
        forall|j: int| k < j < n ==> (#[trigger] v[j]).op != op,
    ensures
        commit::last_placement(v, op, n) == Some(v[k]),
    decreases n,
{
    if k < n - 1 {
        assert(v[n - 1].op != op);
        lemma_last_placement(v, op, n - 1, k);
    }
}

proof fn lemma_no_placement(v: Seq<Placement>, op: u32, n: int)
    requires
        0 <= n <= v.len(),
        forall|j: int| 0 <= j < n ==> (#[trigger] v[j]).op != op,
    ensures
        commit::last_placement(v, op, n) is None,
    decreases n,
{
    if n > 0 {
        assert(v[n - 1].op != op);
        lemma_no_placement(v, op, n - 1);
    }
}

/// The selector of a line is the notebook, a colon, and the number of the line behind the path
/// of its folder.
pub proof fn law_id_selector_names_the_line(notebook: Seq<char>, folder: Seq<char>, id: u32)
    ensures
        index::id_selector(notebook, folder, id) == notebook + seq![':'] + resolve_laws::inside(
            folder,
            crate::text::decimal(id as nat),
        ),
{
    reveal_strlit(":");
    reveal_strlit("/");
    assert(":"@ =~= seq![':']);
    assert("/"@ =~= seq!['/']);
    assert(index::id_selector(notebook, folder, id) =~= notebook + seq![':']
        + resolve_laws::inside(folder, crate::text::decimal(id as nat)));
}

} // verus!
