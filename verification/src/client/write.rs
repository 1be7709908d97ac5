//! Creating with a fresh name, and listing tasks.

use crate::argv;
use crate::argv::{empty_tasks_message, is_empty_tasks_error, tasks_scope, TaskStatus};
use crate::error;
use crate::error::{NbError, NbErrorView};
use crate::git::text_agrees;
use crate::text;
use crate::transaction::names;
use crate::transaction::names::{join_folder_file, suffixed_filename};
use crate::transaction::resolve;
use crate::transaction::resolve::strip_notebook;
use crate::types::{NoteTarget, Target};
use vstd::prelude::*;

verus! {

/// How many names are tried.
pub const CREATE_ATTEMPTS: u32 = 100;

/// The path of an attempt: the name itself, and then the name with a number.
pub open spec fn attempt_path_of(folder: Option<Seq<char>>, filename: Seq<char>, attempt: u32) -> Seq<
    char,
> {
    names::joined(
        folder,
        if attempt == 0 {
            filename
        } else {
            names::suffixed(filename, attempt)
        },
    )
}

/// The path of an attempt.
pub fn attempt_path(folder: Option<&str>, filename: &str, attempt: u32) -> (r: String)
    ensures
        r@ == attempt_path_of(text::opt_str(folder), filename@, attempt),
{
    if attempt == 0 {
        join_folder_file(folder, filename)
    } else {
        let name = suffixed_filename(filename, attempt);
        join_folder_file(folder, name.as_str())
    }
}

/// What follows an attempt that failed.
#[derive(Debug)]
pub enum CreateStep {
    /// Try the next number.
    Retry { attempt: u32 },
    Fail { error: NbError },
}

/// What follows an attempt that failed: only a name that is taken leads to another attempt,
/// and after the last one the first path is reported.
pub fn create_with_retry(folder: Option<&str>, filename: &str, attempt: u32, failure: NbError) -> (r:
    CreateStep)
    requires
        attempt < CREATE_ATTEMPTS,
    ensures
        match r {
            CreateStep::Retry { attempt: next } => failure is PathCollision && next == attempt + 1
                && next < CREATE_ATTEMPTS,
            CreateStep::Fail { error } => if failure is PathCollision {
                attempt + 1 == CREATE_ATTEMPTS && error@ == (NbErrorView::PathCollision {
                    path: names::joined(text::opt_str(folder), filename@),
                    plan_index: None,
                })
            } else {
                error == failure
            },
        },
{
    if !matches!(failure, NbError::PathCollision { .. }) {
        return CreateStep::Fail { error: failure };
    }
    if attempt + 1 < CREATE_ATTEMPTS {
        CreateStep::Retry { attempt: attempt + 1 }
    } else {
        CreateStep::Fail {
            error: NbError::PathCollision {
                path: join_folder_file(folder, filename),
                plan_index: None,
            },
        }
    }
}

/// The target of a selector: its item where that is a file, else the path that `nb` gave.
pub fn note_target_for_selector(selector: &str, is_file: bool, resolved: Option<&str>) -> (r: Option<
    NoteTarget,
>)
    ensures
        match r {
            Some(t) => t@ == (Target::Path {
                value: if is_file {
                    resolve::without_notebook(selector@)
                } else {
                    resolved->0@
                },
            }) && (is_file || resolved is Some),
            None => !is_file && resolved is None,
        },
{
    if is_file {
        let item = strip_notebook(selector);
        return Some(NoteTarget::path(item.as_str()));
    }
    match resolved {
        Some(p) => Some(NoteTarget::path(p)),
        None => None,
    }
}

/// The lists of tasks from the first `n` scopes that are not blank.
pub open spec fn task_outputs(v: Seq<Result<String, NbError>>, n: int) -> Seq<Seq<char>>
    decreases n,
{
    if n <= 0 {
        Seq::empty()
    } else {
        match v[n - 1] {
            Ok(out) => if text::trim(out@).len() > 0 {
                task_outputs(v, n - 1).push(text::trim(out@))
            } else {
                task_outputs(v, n - 1)
            },
            Err(_) => task_outputs(v, n - 1),
        }
    }
}

/// A scope without tasks.
pub open spec fn empty_scope(r: Result<String, NbError>) -> bool {
    r matches Err(e) && e matches NbError::CommandFailed { stderr, .. } && argv::no_tasks_diagnostic(
        stderr@,
    )
}

/// A scope that could not be listed.
pub open spec fn failed_scope() -> spec_fn(Result<String, NbError>) -> bool {
    |r: Result<String, NbError>| r is Err && !empty_scope(r)
}

/// A scope without tasks is among them.
pub open spec fn some_scope_empty(v: Seq<Result<String, NbError>>) -> bool {
    exists|k: int| 0 <= k < v.len() && empty_scope(#[trigger] v[k])
}

/// The tasks of all scopes: the first failure, or the lists one below the other; where there is
/// none and a scope said so, that is what is reported.
pub open spec fn tasks_of(v: Seq<Result<String, NbError>>, status: Option<TaskStatus>) -> Result<
    Seq<char>,
    NbErrorView,
> {
    let failed = crate::bytes::find_from(v, failed_scope(), 0);
    let outputs = task_outputs(v, v.len() as int);
    if failed < v.len() {
        Err(v[failed]->Err_0@)
    } else if outputs.len() == 0 && some_scope_empty(v) {
        Err(error::invalid(argv::no_tasks_message(status)))
    } else {
        Ok(text::join(outputs, "\n"@))
    }
}

/// Whether the next scope is listed after this result: a failure ends the listing.
pub fn listing_goes_on(result: &Result<String, NbError>) -> (r: bool)
    ensures
        r == !failed_scope()(*result),
{
    match result {
        Ok(_) => true,
        Err(NbError::CommandFailed { stderr, .. }) => is_empty_tasks_error(stderr.as_str()),
        Err(_) => false,
    }
}

/// The tasks of all scopes, given the result of the command for each.
pub fn list_tasks(results: Vec<Result<String, NbError>>, status: Option<TaskStatus>) -> (r: Result<
    String,
    NbError,
>)
    ensures
        text_agrees(r, tasks_of(results@, status)),
{
    let ghost v = results@;
    let mut outputs = text::no_texts();
    let mut saw_empty = false;
    let mut failed: Option<usize> = None;
    let mut i: usize = 0;
    while i < results.len() && failed.is_none()
        invariant
            i <= results.len(),
            v == results@,
            failed is None ==> text::texts(outputs@) == task_outputs(v, i as int),
            failed is None ==> saw_empty == (exists|k: int|
                0 <= k < i && empty_scope(#[trigger] v[k])),
            failed is None ==> forall|k: int| 0 <= k < i ==> !failed_scope()(#[trigger] v[k]),
            failed matches Some(f) ==> f < v.len() && failed_scope()(v[f as int]) && forall|k: int|
                0 <= k < f ==> !failed_scope()(#[trigger] v[k]),
        decreases results.len() - i,
    {
        match &results[i] {
            Ok(output) => {
                assert(!empty_scope(v[i as int]));
                let trimmed = text::trimmed(output.as_str());
                if !trimmed.is_empty() {
                    text::push_text(&mut outputs, trimmed);
                }
            },
            Err(_) => {
                if listing_goes_on(&results[i]) {
                    assert(empty_scope(v[i as int]));
                    saw_empty = true;
                } else {
                    assert(failed_scope()(v[i as int]));
                    failed = Some(i);
                }
            },
        }
        i += 1;
    }
    match failed {
        Some(f) => {
            proof {
                crate::bytes::lemma_find_from_is(v, failed_scope(), 0, f as int);
            }
            let mut results = results;
            let e = results.swap_remove(f);
            match e {
                Err(e) => Err(e),
                Ok(s) => Ok(s),
            }
        },
        None => {
            proof {
                crate::bytes::lemma_find_from_is(v, failed_scope(), 0, i as int);
                assert(text::texts(outputs@).len() == outputs@.len());
            }
            if outputs.len() == 0 && saw_empty {
                let message = empty_tasks_message(status);
                return Err(NbError::invalid(message.as_str()));
            }
            Ok(text::join_with(&outputs, "\n"))
        },
    }
}

/// A walk through the folders of a notebook, level by level.
#[derive(Debug)]
pub struct ScopeWalk {
    notebook: String,
    /// The folders that have been found, in the order in which they were.
    folders: Vec<String>,
    /// How many of them have been opened.
    opened: usize,
}

/// The model of a [`ScopeWalk`].
pub struct Walk {
    pub notebook: Seq<char>,
    pub folders: Seq<Seq<char>>,
    pub opened: int,
}

impl View for ScopeWalk {
    type V = Walk;

    closed spec fn view(&self) -> Walk {
        Walk {
            notebook: self.notebook@,
            folders: text::texts(self.folders@),
            opened: self.opened as int,
        }
    }
}

/// A folder inside a folder; the empty name is the root.
pub open spec fn child_of(folder: Seq<char>, child: Seq<char>) -> Seq<char> {
    if folder.len() == 0 {
        child
    } else {
        folder + "/"@ + child
    }
}

/// The first `n` folders inside a folder.
pub open spec fn children_of(folder: Seq<char>, names: Seq<Seq<char>>, n: int) -> Seq<Seq<char>>
    decreases n,
{
    if n <= 0 {
        Seq::empty()
    } else {
        children_of(folder, names, n - 1).push(child_of(folder, names[n - 1]))
    }
}

/// The scopes of folders.
pub open spec fn scopes_of(notebook: Seq<char>, folders: Seq<Seq<char>>) -> Seq<Seq<char>> {
    folders.map_values(|f: Seq<char>| argv::scope_of(notebook, argv::non_empty(Some(f))))
}

impl ScopeWalk {
    /// No more folders are opened than have been found.
    #[verifier::type_invariant]
    spec fn sound(self) -> bool {
        self.opened <= self.folders@.len()
    }

    /// Start at a folder; without one, at the root.
    pub fn start(notebook: &str, folder: Option<&str>) -> (r: Self)
        ensures
            r@ == (Walk {
                notebook: notebook@,
                folders: seq![
                    match text::opt_str(folder) {
                        Some(f) => f,
                        None => Seq::empty(),
                    },
                ],
                opened: 0,
            }),
    {
        let mut folders = text::no_texts();
        let first = match folder {
            Some(f) => f.to_string(),
            None => {
                let empty = String::new();
                assert(empty@ =~= Seq::<char>::empty());
                empty
            },
        };
        text::push_text(&mut folders, first.as_str());
        assert(text::texts(folders@) =~= seq![first@]);
        ScopeWalk { notebook: notebook.to_string(), folders, opened: 0 }
    }

    /// The next folder whose folders have to be found, if there is one.
    pub fn next_folder(&self) -> (r: Option<&str>)
        ensures
            match r {
                Some(f) => 0 <= self@.opened < self@.folders.len() && f@
                    == self@.folders[self@.opened],
                None => self@.opened == self@.folders.len(),
            },
    {
        proof {
            use_type_invariant(self);
            assert(text::texts(self.folders@).len() == self.folders@.len());
        }
        if self.opened < self.folders.len() {
            assert(text::texts(self.folders@)[self.opened as int] == self.folders@[self.opened as int]@);
            Some(self.folders[self.opened].as_str())
        } else {
            None
        }
    }

    /// Take the folders inside the next folder; each is opened in its turn.
    pub fn found(self, children: &Vec<String>) -> (r: Self)
        requires
            self@.opened < self@.folders.len(),
        ensures
            r@ == (Walk {
                notebook: self@.notebook,
                folders: self@.folders + children_of(
                    self@.folders[self@.opened],
                    text::texts(children@),
                    children@.len() as int,
                ),
                opened: self@.opened + 1,
            }),
    {
        proof {
            use_type_invariant(&self);
            assert(text::texts(self.folders@).len() == self.folders@.len());
            assert(text::texts(self.folders@)[self.opened as int] == self.folders@[self.opened as int]@);
        }
        let ScopeWalk { notebook, mut folders, opened } = self;
        let total: usize = folders.len();
        let current = folders[opened].clone();
        let ghost start = text::texts(folders@);
        let ghost names = text::texts(children@);
        let mut i: usize = 0;
        assert(start + children_of(current@, names, 0) =~= start);
        while i < children.len()
            invariant
                i <= children.len(),
                names == text::texts(children@),
                total == start.len(),
                folders@.len() == start.len() + i,
                text::texts(folders@) == start + children_of(current@, names, i as int),
            decreases children.len() - i,
        {
            assert(names[i as int] == children@[i as int]@);
            let ghost before = text::texts(folders@);
            if current.as_str().is_empty() {
                text::push_text(&mut folders, children[i].as_str());
            } else {
                let next = text::cat3(current.as_str(), "/", children[i].as_str());
                text::push_text(&mut folders, next.as_str());
            }
            proof {
                assert(text::texts(folders@).len() == folders@.len());
                assert(text::texts(folders@) =~= start + children_of(current@, names, i + 1));
            }
            i += 1;
        }
        assert(names.len() == children@.len());
        ScopeWalk { notebook, folders, opened: opened + 1 }
    }

    /// The scopes of the folders that have been found.
    pub fn scopes(&self) -> (r: Vec<String>)
        ensures
            text::texts(r@) == scopes_of(self@.notebook, self@.folders),
    {
        let mut out: Vec<String> = Vec::new();
        let mut i: usize = 0;
        while i < self.folders.len()
            invariant
                i <= self.folders.len(),
                out@.len() == i,
                forall|k: int|
                    0 <= k < i ==> (#[trigger] out@[k])@ == argv::scope_of(
                        self.notebook@,
                        argv::non_empty(Some(self.folders@[k]@)),
                    ),
            decreases self.folders.len() - i,
        {
            out.push(tasks_scope(self.notebook.as_str(), Some(self.folders[i].as_str())));
            i += 1;
        }
        assert(text::texts(out@) =~= scopes_of(self@.notebook, self@.folders));
        out
    }
}

} // verus!
