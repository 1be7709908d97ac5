//! Which kind of document a file name says.

use vstd::prelude::*;

use crate::parser::dispatch;
use crate::parser::dispatch::Dispatch;
use crate::parser::document::DocumentKind;
use crate::path_laws;
use crate::text;

verus! {

proof fn lemma_lower_concat(a: Seq<char>, b: Seq<char>)
    ensures
        text::ascii_lower_text(a + b) == text::ascii_lower_text(a) + text::ascii_lower_text(b),
{
    assert(text::ascii_lower_text(a + b) =~= text::ascii_lower_text(a) + text::ascii_lower_text(b));
}

/// A name that ends in `.todo.md` is that of a task, one that ends in `.bookmark.md` that of a
/// bookmark, and any other that ends in `.md` that of a note, in upper or lower case, and in
/// every folder.
pub proof fn law_suffix_decides_the_kind(stem: Seq<char>)
    ensures
        path_laws::component(stem + ".todo.md"@) ==> dispatch::dispatch(stem + ".todo.md"@)
            == Dispatch::SupportedKind(DocumentKind::Todo),
        path_laws::component(stem + ".bookmark.md"@) ==> dispatch::dispatch(
            stem + ".bookmark.md"@,
        ) == Dispatch::SupportedKind(DocumentKind::Bookmark),
        path_laws::component(stem + ".md"@) && !".todo"@.is_suffix_of(text::ascii_lower_text(stem))
            && !".bookmark"@.is_suffix_of(text::ascii_lower_text(stem)) ==> dispatch::dispatch(
            stem + ".md"@,
        ) == Dispatch::SupportedKind(DocumentKind::Note),
{
    reveal_strlit(".todo.md");
    reveal_strlit(".bookmark.md");
    reveal_strlit(".md");
    reveal_strlit(".todo");
    reveal_strlit(".bookmark");
    let lower = text::ascii_lower_text(stem);
    if path_laws::component(stem + ".todo.md"@) {
        let name = stem + ".todo.md"@;
        path_laws::law_file_name_is_the_final_component(seq!['x'], name);
        lemma_lower_concat(stem, ".todo.md"@);
        assert(text::ascii_lower_text(".todo.md"@) =~= ".todo.md"@);
        let all = lower + ".todo.md"@;
        assert(".todo.md"@ =~= all.skip(all.len() - 8));
        if ".bookmark.md"@.is_suffix_of(all) {
            assert(".bookmark.md"@[8] == all.skip(all.len() - 12)[8]);
            assert(all[all.len() - 4] == 'o');
            assert(".bookmark.md"@[8] == 'k');
        }
    }
    if path_laws::component(stem + ".bookmark.md"@) {
        let name = stem + ".bookmark.md"@;
        path_laws::law_file_name_is_the_final_component(seq!['x'], name);
        lemma_lower_concat(stem, ".bookmark.md"@);
        assert(text::ascii_lower_text(".bookmark.md"@) =~= ".bookmark.md"@);
        let all = lower + ".bookmark.md"@;
        assert(".bookmark.md"@ =~= all.skip(all.len() - 12));
    }
    if path_laws::component(stem + ".md"@) && !".todo"@.is_suffix_of(lower)
        && !".bookmark"@.is_suffix_of(lower) {
        let name = stem + ".md"@;
        path_laws::law_file_name_is_the_final_component(seq!['x'], name);
        lemma_lower_concat(stem, ".md"@);
        assert(text::ascii_lower_text(".md"@) =~= ".md"@);
        let all = lower + ".md"@;
        assert(".md"@ =~= all.skip(all.len() - 3));
        if ".bookmark.md"@.is_suffix_of(all) {
            let n = lower.len();
            assert(n >= 9);
            assert(".bookmark"@ =~= lower.skip(n - 9)) by {
                assert forall|k: int| 0 <= k < 9 implies ".bookmark"@[k] == lower.skip(n - 9)[k] by {
                    assert(".bookmark.md"@[k] == all.skip(all.len() - 12)[k]);
                }
            }
        }
        if ".todo.md"@.is_suffix_of(all) {
            let n = lower.len();
            assert(n >= 5);
            assert(".todo"@ =~= lower.skip(n - 5)) by {
                assert forall|k: int| 0 <= k < 5 implies ".todo"@[k] == lower.skip(n - 5)[k] by {
                    assert(".todo.md"@[k] == all.skip(all.len() - 8)[k]);
                }
            }
        }
    }
}

/// The folder of a file does not decide its kind, and neither does the case of its name.
pub proof fn law_only_the_name_decides(folder: Seq<char>, name: Seq<char>, other: Seq<char>)
    requires
        path_laws::component(name),
        path_laws::component(other),
        path_laws::plain(folder),
        !(folder.len() > 1 && folder.last() == '.' && folder[folder.len() - 2] == '/'),
        text::ascii_lower_text(name) == text::ascii_lower_text(other),
    ensures
        dispatch::dispatch(folder + "/"@ + name) == dispatch::dispatch(name),
        dispatch::dispatch(other) == dispatch::dispatch(name),
{
    path_laws::law_file_name_is_the_final_component(folder, name);
    path_laws::law_file_name_is_the_final_component(folder, other);
}

} // verus!
