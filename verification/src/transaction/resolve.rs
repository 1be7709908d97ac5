//! What a target means in the planned tree.

use crate::bytes;
use crate::error;
use crate::error::{NbError, NbErrorView};
use crate::paths;
use crate::paths::{file_name_of, file_stem_of, normalize_rel, split_folder_basename};
use crate::text;
use crate::transaction::index;
use crate::transaction::index::{index_rel_for_folder, parse_index_lines};
use crate::transaction::tree::{Node, VirtualTree};
use crate::types::{NoteTarget, Target};
use vstd::prelude::*;

verus! {

/// The refusal to touch an existing path that Git ignores.
pub open spec fn ignored_refusal(path: Seq<char>) -> NbErrorView {
    NbErrorView::PathIgnored {
        path,
        guidance: "cannot edit, delete, or move an existing Git-ignored path inside a transaction"@,
        plan_index: None,
    }
}

/// The error of that refusal.
fn refuse_ignored(path: &str) -> (r: NbError)
    ensures
        r@ == ignored_refusal(path@),
{
    NbError::PathIgnored {
        path: path.to_string(),
        guidance:
            "cannot edit, delete, or move an existing Git-ignored path inside a transaction".to_string(),
        plan_index: None,
    }
}

/// Refuse an existing path that Git ignores.
pub fn refuse_existing_ignored(ignored: &Vec<String>, path: &str) -> (r: Result<(), NbError>)
    ensures
        match r {
            Ok(()) => !text::texts(ignored@).contains(path@),
            Err(e) => text::texts(ignored@).contains(path@) && e@ == ignored_refusal(path@),
        },
{
    if text::list_contains(ignored, path) {
        return Err(refuse_ignored(path));
    }
    Ok(())
}

/// What a numeric id stands for in the index of its folder. `None` where the text is not a
/// numeric id, or the folder has no index; an id of a blank line, or one that was never given,
/// is not found.
pub open spec fn numeric(m: Map<Seq<char>, Node>, candidate: Seq<char>) -> Option<
    Result<Seq<char>, NbErrorView>,
> {
    let (folder, id_text) = paths::folder_and_base(candidate);
    let missing = Err::<Seq<char>, NbErrorView>(NbErrorView::NotFound { selector: candidate });
    match text::unsigned(id_text) {
        None => None,
        Some(id) => if id == 0 {
            Some(missing)
        } else {
            let rel = index::index_file(folder);
            if m.dom().contains(rel) && m[rel] is File {
                let lines = index::index_lines(m[rel]->File_0);
                if id <= lines.len() && text::trim(lines[id - 1]).len() > 0 {
                    if folder.len() == 0 {
                        Some(Ok(lines[id - 1]))
                    } else {
                        Some(Ok(folder + "/"@ + lines[id - 1]))
                    }
                } else {
                    Some(missing)
                }
            } else {
                None
            }
        },
    }
}

/// A resolved path, or a refusal, and its model agree.
pub open spec fn path_agrees(
    r: Result<String, NbError>,
    model: Result<Seq<char>, NbErrorView>,
) -> bool {
    match r {
        Ok(p) => model == Ok::<Seq<char>, NbErrorView>(p@),
        Err(e) => model == Err::<Seq<char>, NbErrorView>(e@),
    }
}

/// Resolve a numeric id against the planned index of its folder.
pub fn resolve_numeric_in_tree(tree: &VirtualTree, candidate: &str) -> (r: Option<
    Result<String, NbError>,
>)
    ensures
        match r {
            None => numeric(tree@, candidate@) is None,
            Some(x) => numeric(tree@, candidate@) matches Some(model) && path_agrees(x, model),
        },
{
    let (folder, id_text) = split_folder_basename(candidate);
    let id: usize = match text::parse_unsigned(id_text.as_str()) {
        Some(n) => n,
        None => {
            return None;
        },
    };
    if id == 0 {
        return Some(Err(NbError::NotFound { selector: candidate.to_string() }));
    }
    let rel = index_rel_for_folder(folder.as_str());
    match tree.get_file(rel.as_str()) {
        None => None,
        Some(content) => {
            let lines = parse_index_lines(content.as_slice());
            assert(text::texts(lines@).len() == lines@.len());
            if id <= lines.len() {
                let name = lines[id - 1].as_str();
                assert(text::texts(lines@)[id - 1] == name@);
                if !text::trimmed(name).is_empty() {
                    if folder.as_str().is_empty() {
                        return Some(Ok(name.to_string()));
                    }
                    return Some(Ok(text::cat3(folder.as_str(), "/", name)));
                }
            }
            Some(Err(NbError::NotFound { selector: candidate.to_string() }))
        },
    }
}

/// What follows the last colon of a selector: the selector without its notebook.
pub open spec fn without_notebook(value: Seq<char>) -> Seq<char> {
    value.skip(paths::last_index(value, ':') + 1)
}

/// The selector without its notebook.
pub fn strip_notebook(value: &str) -> (r: String)
    ensures
        r@ == without_notebook(value@),
{
    let x = text::chars_of(value);
    let n: usize = x.len();
    let from: usize = match paths::last_index_of(x.as_slice(), ':') {
        Some(i) => i + 1,
        None => 0,
    };
    let out = text::string_of(vstd::slice::slice_subrange(x.as_slice(), from, n));
    assert(out@ =~= without_notebook(value@));
    out
}

/// A path that a name can mean: the path itself, one that ends in it, or one with that stem.
pub open spec fn name_matches(p: Seq<char>, candidate: Seq<char>, name: Seq<char>) -> bool {
    p == candidate || ("/"@ + candidate).is_suffix_of(p) || paths::file_stem(p) == Some(name)
        || name.is_suffix_of(p)
}

/// A file of the tree that a name can mean.
pub open spec fn named(
    m: Map<Seq<char>, Node>,
    candidate: Seq<char>,
    name: Seq<char>,
    p: Seq<char>,
) -> bool {
    m.dom().contains(p) && m[p] is File && name_matches(p, candidate, name)
}

/// The test for an ignored path that a name can mean.
pub open spec fn ignored_named(candidate: Seq<char>, name: Seq<char>) -> spec_fn(Seq<char>) -> bool {
    |p: Seq<char>| ("/"@ + candidate).is_suffix_of(p) || name.is_suffix_of(p)
}

/// The file that a name means: the only one that it can mean. Of the ignored paths that the
/// name can mean, the first is refused by name.
pub open spec fn by_name(
    m: Map<Seq<char>, Node>,
    ignored: Seq<Seq<char>>,
    value: Seq<char>,
    candidate: Seq<char>,
    name: Seq<char>,
) -> Result<Seq<char>, NbErrorView> {
    if exists|p: Seq<char>, q: Seq<char>|
        #[trigger] named(m, candidate, name, p) && #[trigger] named(m, candidate, name, q) && p
            != q {
        Err(
            error::invalid("selector `"@ + value + "` is ambiguous across multiple paths"@),
        )
    } else if exists|p: Seq<char>| named(m, candidate, name, p) {
        Ok(choose|p: Seq<char>| named(m, candidate, name, p))
    } else {
        let at = bytes::find_from(ignored, ignored_named(candidate, name), 0);
        if at < ignored.len() {
            Err(ignored_refusal(ignored[at]))
        } else {
            Err(NbErrorView::NotFound { selector: value })
        }
    }
}

/// The path that a target means in the planned tree, or the refusal.
pub open spec fn resolved(
    m: Map<Seq<char>, Node>,
    ignored: Seq<Seq<char>>,
    target: Target,
) -> Result<Seq<char>, NbErrorView> {
    match target {
        Target::Path { value } => {
            let path = paths::normalized(value);
            if ignored.contains(path) {
                Err(ignored_refusal(path))
            } else if m.dom().contains(path) {
                Ok(path)
            } else {
                Err(NbErrorView::NotFound { selector: value })
            }
        },
        Target::Selector { value } => {
            let name = without_notebook(value);
            let candidate = paths::normalized(name);
            if ignored.contains(candidate) {
                Err(ignored_refusal(candidate))
            } else if m.dom().contains(candidate) {
                Ok(candidate)
            } else {
                match numeric(m, candidate) {
                    Some(r) => r,
                    None => by_name(m, ignored, value, candidate, name),
                }
            }
        },
    }
}

/// Whether a path is one that a name can mean.
fn matches_name(path: &str, candidate: &str, suffix: &str, name: &str) -> (r: bool)
    requires
        suffix@ == "/"@ + candidate@,
    ensures
        r == name_matches(path@, candidate@, name@),
{
    if text::equal(path, candidate) || text::ends_with(path, suffix) || text::ends_with(path, name) {
        return true;
    }
    match file_stem_of(path) {
        Some(stem) => text::equal(stem.as_str(), name),
        None => false,
    }
}

/// The file that a name means.
fn resolve_by_name(
    tree: &VirtualTree,
    ignored: &Vec<String>,
    value: &str,
    candidate: &str,
    name: &str,
) -> (r: Result<String, NbError>)
    ensures
        path_agrees(r, by_name(tree@, text::texts(ignored@), value@, candidate@, name@)),
{
    let suffix = text::cat2("/", candidate);
    let n: usize = tree.len();
    let mut found: Option<usize> = None;
    let mut i: usize = 0;
    while i < n
        invariant
            i <= n,
            n == tree.count(),
            suffix@ == "/"@ + candidate@,
            forall|k: int|
                0 <= k < tree.count() ==> tree@.dom().contains(#[trigger] tree.path_at(k)),
            forall|a: int, b: int|
                0 <= a < b < tree.count() ==> #[trigger] tree.path_at(a) != #[trigger] tree.path_at(
                    b,
                ),
            match found {
                Some(f) => f < i && named(tree@, candidate@, name@, tree.path_at(f as int)),
                None => true,
            },
            forall|k: int|
                0 <= k < i && named(tree@, candidate@, name@, #[trigger] tree.path_at(k))
                    ==> found == Some(k as usize),
        decreases n - i,
    {
        if tree.is_file(i) && matches_name(tree.path(i), candidate, suffix.as_str(), name) {
            assert(named(tree@, candidate@, name@, tree.path_at(i as int)));
            match found {
                Some(f) => {
                    assert(tree.path_at(f as int) != tree.path_at(i as int));
                    let reason = text::cat3(
                        "selector `",
                        value,
                        "` is ambiguous across multiple paths",
                    );
                    return Err(NbError::invalid(reason.as_str()));
                },
                None => {
                    found = Some(i);
                },
            }
        }
        i += 1;
    }
    match found {
        Some(f) => {
            proof {
                let one = tree.path_at(f as int);
                assert forall|p: Seq<char>| named(tree@, candidate@, name@, p) implies p == one by {
                    let k = choose|k: int| 0 <= k < tree.count() && #[trigger] tree.path_at(k) == p;
                    assert(named(tree@, candidate@, name@, tree.path_at(k)));
                }
                assert(named(tree@, candidate@, name@, one));
            }
            Ok(tree.path(f).to_string())
        },
        None => {
            assert forall|p: Seq<char>| !named(tree@, candidate@, name@, p) by {
                if named(tree@, candidate@, name@, p) {
                    let k = choose|k: int| 0 <= k < tree.count() && #[trigger] tree.path_at(k) == p;
                    assert(named(tree@, candidate@, name@, tree.path_at(k)));
                }
            }
            first_ignored(ignored, value, candidate, suffix.as_str(), name)
        },
    }
}

/// The refusal where no file has the name.
fn first_ignored(
    ignored: &Vec<String>,
    value: &str,
    candidate: &str,
    suffix: &str,
    name: &str,
) -> (r: Result<String, NbError>)
    requires
        suffix@ == "/"@ + candidate@,
    ensures
        ({
            let list = text::texts(ignored@);
            let at = bytes::find_from(list, ignored_named(candidate@, name@), 0);
            r matches Err(e) && e@ == (if at < list.len() {
                ignored_refusal(list[at])
            } else {
                NbErrorView::NotFound { selector: value@ }
            })
        }),
{
    let ghost list = text::texts(ignored@);
    let ghost test = ignored_named(candidate@, name@);
    let mut i: usize = 0;
    while i < ignored.len()
        invariant
            i <= ignored.len(),
            list == text::texts(ignored@),
            test == ignored_named(candidate@, name@),
            suffix@ == "/"@ + candidate@,
            forall|k: int| 0 <= k < i ==> !test(#[trigger] list[k]),
        decreases ignored.len() - i,
    {
        assert(list[i as int] == ignored@[i as int]@);
        if text::ends_with(ignored[i].as_str(), suffix) || text::ends_with(
            ignored[i].as_str(),
            name,
        ) {
            proof {
                bytes::lemma_find_from_is(list, test, 0, i as int);
            }
            return Err(refuse_ignored(ignored[i].as_str()));
        }
        i += 1;
    }
    proof {
        assert(list.len() == ignored@.len());
        bytes::lemma_find_from_is(list, test, 0, i as int);
    }
    Err(NbError::NotFound { selector: value.to_string() })
}

/// The path that a target means in the planned tree.
pub fn resolve_target_path(tree: &VirtualTree, ignored: &Vec<String>, target: &NoteTarget) -> (r:
    Result<String, NbError>)
    ensures
        path_agrees(r, resolved(tree@, text::texts(ignored@), target@)),
{
    match target {
        NoteTarget::Path { value } => {
            let path = normalize_rel(value.as_str());
            match refuse_existing_ignored(ignored, path.as_str()) {
                Ok(()) => {},
                Err(e) => {
                    return Err(e);
                },
            }
            if tree.contains(path.as_str()) {
                return Ok(path);
            }
            Err(NbError::NotFound { selector: value.clone() })
        },
        NoteTarget::Selector { value } => {
            let name = strip_notebook(value.as_str());
            let candidate = normalize_rel(name.as_str());
            match refuse_existing_ignored(ignored, candidate.as_str()) {
                Ok(()) => {},
                Err(e) => {
                    return Err(e);
                },
            }
            if tree.contains(candidate.as_str()) {
                return Ok(candidate);
            }
            match resolve_numeric_in_tree(tree, candidate.as_str()) {
                Some(r) => r,
                None => resolve_by_name(
                    tree,
                    ignored,
                    value.as_str(),
                    candidate.as_str(),
                    name.as_str(),
                ),
            }
        },
    }
}

/// A destination that names a folder to move into.
pub open spec fn into_folder(destination: Seq<char>) -> bool {
    let t = text::trim_end(destination);
    t.len() > 0 && t.last() == '/'
}

/// Whether a destination names a folder to move into.
pub fn is_into_folder(destination: &str) -> (r: bool)
    ensures
        r == into_folder(destination@),
{
    let t = text::trimmed_end(destination);
    let x = text::chars_of(t);
    x.len() > 0 && x[x.len() - 1] == '/'
}

/// The path that a move from `from` leads to: below a folder the base name stays.
pub open spec fn moved_to(from: Seq<char>, destination: Seq<char>) -> Seq<char> {
    let dest = paths::normalized(destination);
    if into_folder(destination) {
        let base = match paths::file_name(from) {
            Some(name) => name,
            None => from,
        };
        paths::normalized(dest + "/"@ + base)
    } else {
        dest
    }
}

/// The path that a move leads to.
pub fn resolve_move_destination(from: &str, destination: &str) -> (r: String)
    ensures
        r@ == moved_to(from@, destination@),
{
    let dest = normalize_rel(destination);
    if is_into_folder(destination) {
        let base = match file_name_of(from) {
            Some(name) => name,
            None => from.to_string(),
        };
        let joined = text::cat3(dest.as_str(), "/", base.as_str());
        return normalize_rel(joined.as_str());
    }
    dest
}

/// The selector that is reported for a target: a selector keeps its form, with the notebook
/// in front where it has none.
pub open spec fn selector_of(notebook: Seq<char>, target: Target, path: Seq<char>) -> Seq<char> {
    match target {
        Target::Selector { value } => if value.contains(':') {
            value
        } else {
            notebook + ":"@ + value
        },
        Target::Path { .. } => notebook + ":"@ + path,
    }
}

/// The selector that is reported for a target.
pub fn outcome_selector(notebook: &str, target: &NoteTarget, resolved_path: &str) -> (r: String)
    ensures
        r@ == selector_of(notebook@, target@, resolved_path@),
{
    match target {
        NoteTarget::Selector { value } => {
            if text::contains_char(value.as_str(), ':') {
                value.clone()
            } else {
                text::cat3(notebook, ":", value.as_str())
            }
        },
        NoteTarget::Path { .. } => text::cat3(notebook, ":", resolved_path),
    }
}

/// An id that was never given, or whose line is blank, resolves to nothing: ids are not
/// reused.
pub proof fn law_dead_id_is_not_found(m: Map<Seq<char>, Node>, candidate: Seq<char>, id: nat)
    requires
        text::unsigned(paths::folder_and_base(candidate).1) == Some(id),
        ({
            let rel = index::index_file(paths::folder_and_base(candidate).0);
            m.dom().contains(rel) && m[rel] is File && ({
                let lines = index::index_lines(m[rel]->File_0);
                id == 0 || id > lines.len() || text::trim(lines[id - 1]).len() == 0
            })
        }),
    ensures
        numeric(m, candidate) == Some(
            Err::<Seq<char>, NbErrorView>(NbErrorView::NotFound { selector: candidate }),
        ),
{
}

} // verus!
