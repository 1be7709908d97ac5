//! Arguments of `nb` commands.

use crate::text;
use crate::transaction::content;
use vstd::prelude::*;

verus! {

/// How several search terms are combined.
#[derive(Debug, Clone, Copy, PartialEq, Eq, Structural)]
pub enum SearchMode {
    /// One of them has to match.
    Any,
    /// All of them have to match.
    All,
}

impl Default for SearchMode {
    fn default() -> (r: Self)
        ensures
            r == SearchMode::Any,
    {
        SearchMode::Any
    }
}

/// Which tasks are listed.
#[derive(Debug, Clone, Copy, PartialEq, Eq, Structural)]
pub enum TaskStatus {
    Open,
    Closed,
}

/// A tag with a `#` in front.
pub fn normalize_tag(tag: &str) -> (r: String)
    ensures
        r@ == content::tag_text(tag@),
{
    content::with_hash(tag)
}

/// A folder without slashes at its ends.
pub fn normalize_folder(folder: &str) -> (r: String)
    ensures
        r@ == crate::paths::strip_both(folder@, '/'),
{
    crate::paths::without_both(folder, '/')
}

/// The scope of a command: a notebook, or a folder in it.
pub open spec fn scope_of(notebook: Seq<char>, folder: Option<Seq<char>>) -> Seq<char> {
    match folder {
        Some(f) => notebook + ":"@ + f + "/"@,
        None => notebook + ":"@,
    }
}

/// The scope of a command: a notebook, or a folder in it.
pub fn command_scope(notebook: &str, folder: Option<&str>) -> (r: String)
    ensures
        r@ == scope_of(notebook@, text::opt_str(folder)),
{
    match folder {
        Some(f) => text::cat4(notebook, ":", f, "/"),
        None => text::cat2(notebook, ":"),
    }
}

/// The folder of a tasks command: the empty folder is the notebook itself.
pub open spec fn non_empty(folder: Option<Seq<char>>) -> Option<Seq<char>> {
    match folder {
        Some(f) => if f.len() == 0 {
            None
        } else {
            Some(f)
        },
        None => None,
    }
}

/// The scope of a tasks command.
pub fn tasks_scope(notebook: &str, folder: Option<&str>) -> (r: String)
    ensures
        r@ == scope_of(notebook@, non_empty(text::opt_str(folder))),
{
    match folder {
        Some(path) => {
            if path.is_empty() {
                command_scope(notebook, None)
            } else {
                command_scope(notebook, Some(path))
            }
        },
        None => command_scope(notebook, None),
    }
}

/// The word for a status.
pub open spec fn status_word(status: TaskStatus) -> Seq<char> {
    match status {
        TaskStatus::Open => "open"@,
        TaskStatus::Closed => "closed"@,
    }
}

/// The arguments of a tasks command.
pub open spec fn tasks_args(scope: Seq<char>, status: Option<TaskStatus>) -> Seq<Seq<char>> {
    match status {
        Some(s) => seq!["tasks"@, scope, status_word(s), "--no-color"@],
        None => seq!["tasks"@, scope, "--no-color"@],
    }
}

/// The arguments of a tasks command.
pub fn tasks_command_args(scope: &str, status: Option<TaskStatus>) -> (r: Vec<String>)
    ensures
        text::texts(r@) == tasks_args(scope@, status),
{
    let mut args = text::no_texts();
    text::push_text(&mut args, "tasks");
    text::push_text(&mut args, scope);
    if let Some(filter) = status {
        match filter {
            TaskStatus::Open => text::push_text(&mut args, "open"),
            TaskStatus::Closed => text::push_text(&mut args, "closed"),
        }
    }
    text::push_text(&mut args, "--no-color");
    assert(text::texts(args@) =~= tasks_args(scope@, status));
    args
}

/// The search terms among the first `n`, as arguments.
pub open spec fn term_args(queries: Seq<Seq<char>>, mode: SearchMode, n: int) -> Seq<Seq<char>>
    decreases n,
{
    if n <= 0 {
        Seq::empty()
    } else if n > 1 && mode == SearchMode::Any {
        term_args(queries, mode, n - 1) + seq!["--or"@, queries[n - 1]]
    } else {
        term_args(queries, mode, n - 1).push(queries[n - 1])
    }
}

/// The first `n` tags, each after a flag.
pub open spec fn tag_args(flag: Seq<char>, tags: Seq<Seq<char>>, n: int) -> Seq<Seq<char>>
    decreases n,
{
    if n <= 0 {
        Seq::empty()
    } else {
        tag_args(flag, tags, n - 1) + seq![flag, content::tag_text(tags[n - 1])]
    }
}

/// The arguments of a search command.
pub open spec fn search_args(
    scope: Seq<char>,
    queries: Seq<Seq<char>>,
    mode: SearchMode,
    tags: Seq<Seq<char>>,
) -> Seq<Seq<char>> {
    seq!["search"@, scope] + term_args(queries, mode, queries.len() as int) + tag_args(
        "--tag"@,
        tags,
        tags.len() as int,
    ) + seq!["--no-color"@]
}

/// Append tags, each after a flag.
fn push_tags(args: &mut Vec<String>, flag: &str, tags: &[String])
    ensures
        text::texts(final(args)@) == text::texts(old(args)@) + tag_args(
            flag@,
            text::texts(tags@),
            tags@.len() as int,
        ),
{
    let ghost start = text::texts(args@);
    let ghost all = text::texts(tags@);
    let mut i: usize = 0;
    assert(start + tag_args(flag@, all, 0) =~= start);
    while i < tags.len()
        invariant
            i <= tags.len(),
            all == text::texts(tags@),
            text::texts(args@) == start + tag_args(flag@, all, i as int),
        decreases tags.len() - i,
    {
        assert(all[i as int] == tags@[i as int]@);
        let ghost before = text::texts(args@);
        let tag = normalize_tag(tags[i].as_str());
        text::push_text(args, flag);
        text::push_text(args, tag.as_str());
        assert(text::texts(args@) =~= start + tag_args(flag@, all, i + 1));
        i += 1;
    }
}

/// The arguments of a search command.
pub fn search_command_args(scope: &str, queries: &[String], mode: SearchMode, tags: &[String]) -> (r:
    Vec<String>)
    ensures
        text::texts(r@) == search_args(scope@, text::texts(queries@), mode, text::texts(tags@)),
{
    let ghost all = text::texts(queries@);
    let ghost head = seq!["search"@, scope@];
    let mut args = text::no_texts();
    text::push_text(&mut args, "search");
    text::push_text(&mut args, scope);
    let mut i: usize = 0;
    assert(text::texts(args@) =~= head + term_args(all, mode, 0));
    while i < queries.len()
        invariant
            i <= queries.len(),
            all == text::texts(queries@),
            text::texts(args@) == head + term_args(all, mode, i as int),
        decreases queries.len() - i,
    {
        assert(all[i as int] == queries@[i as int]@);
        if i > 0 && mode == SearchMode::Any {
            text::push_text(&mut args, "--or");
        }
        text::push_text(&mut args, queries[i].as_str());
        assert(text::texts(args@) =~= head + term_args(all, mode, i + 1));
        i += 1;
    }
    assert(all.len() == queries@.len());
    push_tags(&mut args, "--tag", tags);
    text::push_text(&mut args, "--no-color");
    proof {
        assert(text::texts(tags@).len() == tags@.len());
        assert(text::texts(args@) =~= search_args(
            scope@,
            text::texts(queries@),
            mode,
            text::texts(tags@),
        ));
    }
    args
}

/// The arguments of a list command.
pub open spec fn list_args(scope: Seq<char>, limit: Option<u32>, tags: Seq<Seq<char>>) -> Seq<
    Seq<char>,
> {
    let head = seq!["list"@, scope, "--no-color"@];
    let limited = match limit {
        Some(n) => head + seq!["-n"@, text::decimal(n as nat)],
        None => head,
    };
    limited + tag_args("--tags"@, tags, tags.len() as int)
}

/// The arguments of a list command.
pub fn list_command_args(scope: &str, limit: Option<u32>, tags: &[String]) -> (r: Vec<String>)
    ensures
        text::texts(r@) == list_args(scope@, limit, text::texts(tags@)),
{
    let mut args = text::no_texts();
    text::push_text(&mut args, "list");
    text::push_text(&mut args, scope);
    text::push_text(&mut args, "--no-color");
    if let Some(n) = limit {
        let digits = text::decimal_of(n as u64);
        text::push_text(&mut args, "-n");
        text::push_text(&mut args, digits.as_str());
    }
    push_tags(&mut args, "--tags", tags);
    proof {
        assert(text::texts(tags@).len() == tags@.len());
        assert(text::texts(args@) =~= list_args(scope@, limit, text::texts(tags@)));
    }
    args
}

/// The arguments of a command that lists folders.
pub fn folders_command_args(scope: &str) -> (r: Vec<String>)
    ensures
        text::texts(r@) == seq!["list"@, scope@, "--type"@, "folder"@, "--no-color"@],
{
    let mut args = text::no_texts();
    text::push_text(&mut args, "list");
    text::push_text(&mut args, scope);
    text::push_text(&mut args, "--type");
    text::push_text(&mut args, "folder");
    text::push_text(&mut args, "--no-color");
    assert(text::texts(args@) =~= seq!["list"@, scope@, "--type"@, "folder"@, "--no-color"@]);
    args
}

/// Where an import goes: a folder, a file name, or both.
pub open spec fn import_destination(folder: Option<Seq<char>>, filename: Option<Seq<char>>) -> Option<
    Seq<char>,
> {
    match (folder, filename) {
        (Some(f), Some(n)) => Some(f + "/"@ + n),
        (Some(f), None) => Some(f + "/"@),
        (None, Some(n)) => Some(n),
        (None, None) => None,
    }
}

/// The arguments of an import command.
pub open spec fn import_args(
    notebook: Seq<char>,
    source: Seq<char>,
    convert: bool,
    folder: Option<Seq<char>>,
    filename: Option<Seq<char>>,
) -> Seq<Seq<char>> {
    let head = seq![notebook + ":import"@, source];
    let converted = if convert {
        head.push("--convert"@)
    } else {
        head
    };
    match import_destination(folder, filename) {
        Some(d) => converted.push(d),
        None => converted,
    }
}

/// The arguments of an import command.
pub fn import_command_args(
    notebook: &str,
    source: &str,
    convert: bool,
    folder: Option<&str>,
    filename: Option<&str>,
) -> (r: Vec<String>)
    ensures
        text::texts(r@) == import_args(
            notebook@,
            source@,
            convert,
            text::opt_str(folder),
            text::opt_str(filename),
        ),
{
    let command = text::cat2(notebook, ":import");
    let mut args = text::no_texts();
    text::push_text(&mut args, command.as_str());
    text::push_text(&mut args, source);
    if convert {
        text::push_text(&mut args, "--convert");
    }
    match folder {
        Some(f) => {
            let dest = match filename {
                Some(n) => text::cat3(f, "/", n),
                None => text::cat2(f, "/"),
            };
            text::push_text(&mut args, dest.as_str());
        },
        None => {
            match filename {
                Some(n) => text::push_text(&mut args, n),
                None => {},
            }
        },
    }
    assert(text::texts(args@) =~= import_args(
        notebook@,
        source@,
        convert,
        text::opt_str(folder),
        text::opt_str(filename),
    ));
    args
}

/// A diagnostic that says that there are no tasks.
pub open spec fn no_tasks_diagnostic(message: Seq<char>) -> bool {
    "! 0 "@.is_prefix_of(text::trim_start(message)) && text::find_text(message, " tasks."@, 0)
        is Some
}

/// Whether a diagnostic says that there are no tasks.
pub fn is_empty_tasks_error(message: &str) -> (r: bool)
    ensures
        r == no_tasks_diagnostic(message@),
{
    text::starts_with(text::trimmed_start(message), "! 0 ") && text::find_text_in(
        message,
        " tasks.",
    ).is_some()
}

/// The message for an empty list of tasks.
pub open spec fn no_tasks_message(status: Option<TaskStatus>) -> Seq<char> {
    match status {
        Some(TaskStatus::Open) => "! 0 open tasks."@,
        Some(TaskStatus::Closed) => "! 0 closed tasks."@,
        None => "! 0 tasks."@,
    }
}

/// The message for an empty list of tasks.
pub fn empty_tasks_message(status: Option<TaskStatus>) -> (r: String)
    ensures
        r@ == no_tasks_message(status),
{
    match status {
        Some(TaskStatus::Open) => "! 0 open tasks.".to_string(),
        Some(TaskStatus::Closed) => "! 0 closed tasks.".to_string(),
        None => "! 0 tasks.".to_string(),
    }
}

/// An entry of a folder.
#[derive(Debug, Clone)]
pub struct FolderEntry {
    pub name: String,
    pub is_folder: bool,
}

/// A folder that is not hidden.
pub open spec fn visible_folder(e: FolderEntry) -> bool {
    e.is_folder && !"."@.is_prefix_of(e.name@)
}

/// The names of the folders in a folder that are not hidden, in ascending order.
pub fn child_folder_names(entries: &Vec<FolderEntry>) -> (r: Vec<String>)
    ensures
        text::ascending(text::texts(r@)),
        forall|t: Seq<char>| #[trigger]
            text::texts(r@).contains(t) <==> exists|k: int|
                0 <= k < entries@.len() && visible_folder(#[trigger] entries@[k])
                    && entries@[k].name@ == t,
{
    let mut names = text::no_texts();
    let mut i: usize = 0;
    while i < entries.len()
        invariant
            i <= entries.len(),
            forall|t: Seq<char>| #[trigger]
                text::texts(names@).contains(t) <==> exists|k: int|
                    0 <= k < i && visible_folder(#[trigger] entries@[k]) && entries@[k].name@ == t,
        decreases entries.len() - i,
    {
        let ghost before = text::texts(names@);
        if entries[i].is_folder && !text::starts_with(entries[i].name.as_str(), ".") {
            text::push_text(&mut names, entries[i].name.as_str());
        }
        proof {
            let now = text::texts(names@);
            assert forall|t: Seq<char>| #[trigger] now.contains(t) <==> exists|k: int|
                0 <= k < i + 1 && visible_folder(#[trigger] entries@[k]) && entries@[k].name@
                    == t by {
                if before.contains(t) {
                    let j = choose|j: int| 0 <= j < before.len() && before[j] == t;
                    assert(now[j] == t);
                }
                if visible_folder(entries@[i as int]) && entries@[i as int].name@ == t {
                    assert(now[before.len() as int] == t);
                }
                if now.contains(t) && !before.contains(t) {
                    let j = choose|j: int| 0 <= j < now.len() && now[j] == t;
                    if j < before.len() {
                        assert(before[j] == t);
                    }
                    assert(visible_folder(entries@[i as int]) && entries@[i as int].name@ == t);
                }
                if exists|k: int|
                    0 <= k < i + 1 && visible_folder(#[trigger] entries@[k]) && entries@[k].name@
                        == t {
                    let k = choose|k: int|
                        0 <= k < i + 1 && visible_folder(#[trigger] entries@[k])
                            && entries@[k].name@ == t;
                    if k < i {
                        assert(before.contains(t));
                    }
                }
            }
        }
        i += 1;
    }
    text::sorted_unique(&names)
}

} // verus!
