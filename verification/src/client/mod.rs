//! The client: which notebook is meant, which `nb` command is run, and what its result means.

pub mod command_laws;
pub mod read;
pub mod read_laws;
pub mod write;

use crate::diagnostics;
use crate::diagnostics::{append_warning, is_notebook_not_found};
use crate::error;
use crate::error::{IoError, NbError, NbErrorView};
use crate::gate::DEFAULT_GATE_TIMEOUT_MS;
use crate::git::{text_agrees, Finished};
use crate::text;
use crate::transaction::names;
use crate::transaction::names::detect_duplicate_title_heading;
use vstd::prelude::*;

verus! {

/// What a client is made with.
#[derive(Debug)]
pub struct Config {
    /// The default notebook; without one, that of the Git repository is taken.
    pub notebook: Option<String>,
    /// Create a notebook that is missing.
    pub create_notebook: bool,
    /// Allow new notes outside of folders.
    pub allow_top_level_notes: bool,
    /// Do not sign commits and tags.
    pub disable_git_signing: bool,
    /// How long to wait for a notebook, in milliseconds.
    pub gate_timeout_ms: u64,
}

impl Default for Config {
    fn default() -> (r: Self)
        ensures
            r == (Config {
                notebook: None,
                create_notebook: true,
                allow_top_level_notes: false,
                disable_git_signing: false,
                gate_timeout_ms: DEFAULT_GATE_TIMEOUT_MS,
            }),
    {
        Config {
            notebook: None,
            create_notebook: true,
            allow_top_level_notes: false,
            disable_git_signing: false,
            gate_timeout_ms: DEFAULT_GATE_TIMEOUT_MS,
        }
    }
}

impl Clone for Config {
    fn clone(&self) -> (r: Self)
        ensures
            r == *self,
    {
        Config {
            notebook: match &self.notebook {
                Some(n) => Some(n.clone()),
                None => None,
            },
            create_notebook: self.create_notebook,
            allow_top_level_notes: self.allow_top_level_notes,
            disable_git_signing: self.disable_git_signing,
            gate_timeout_ms: self.gate_timeout_ms,
        }
    }
}

/// Decides for a client of `nb`.
#[derive(Debug)]
pub struct NbClient {
    default_notebook: Option<String>,
    create_notebook: bool,
    disable_git_signing: bool,
    allow_top_level_notes: bool,
    gate_timeout_ms: u64,
}

/// The model of an [`NbClient`].
pub struct Client {
    pub default_notebook: Option<Seq<char>>,
    pub create_notebook: bool,
    pub disable_git_signing: bool,
    pub allow_top_level_notes: bool,
    pub gate_timeout_ms: u64,
}

impl View for NbClient {
    type V = Client;

    closed spec fn view(&self) -> Client {
        Client {
            default_notebook: error::opt_text(self.default_notebook),
            create_notebook: self.create_notebook,
            disable_git_signing: self.disable_git_signing,
            allow_top_level_notes: self.allow_top_level_notes,
            gate_timeout_ms: self.gate_timeout_ms,
        }
    }
}

impl Clone for NbClient {
    fn clone(&self) -> (r: Self)
        ensures
            r@ == self@,
    {
        NbClient {
            default_notebook: match &self.default_notebook {
                Some(n) => Some(n.clone()),
                None => None,
            },
            create_notebook: self.create_notebook,
            disable_git_signing: self.disable_git_signing,
            allow_top_level_notes: self.allow_top_level_notes,
            gate_timeout_ms: self.gate_timeout_ms,
        }
    }
}

/// The message for a new note without a folder.
pub const FOLDER_REQUIRED_MESSAGE: &'static str =
    "This server is configured to require `folder` for new notes. Use the `nb.mkdir` tool to create new folders and the `nb.folders` tool to list existing folders.";

/// The notebook of a command, or the refusal.
pub open spec fn notebook_of(default: Option<Seq<char>>, notebook: Option<Seq<char>>) -> Result<
    Seq<char>,
    NbErrorView,
> {
    match notebook {
        Some(name) => Ok(name),
        None => match default {
            Some(name) => Ok(name),
            None => Err(
                error::invalid("notebook not configured; set --notebook or NB_MCP_NOTEBOOK"@),
            ),
        },
    }
}

/// A target as `nb` takes it.
#[derive(Debug)]
pub struct TargetSelector {
    pub notebook: String,
    pub selector: String,
    /// The notebook was named in the selector: it is not created where it is missing.
    pub must_exist: bool,
}

/// The model of a [`TargetSelector`].
pub struct Targeted {
    pub notebook: Seq<char>,
    pub selector: Seq<char>,
    pub must_exist: bool,
}

impl View for TargetSelector {
    type V = Targeted;

    open spec fn view(&self) -> Targeted {
        Targeted {
            notebook: self.notebook@,
            selector: self.selector@,
            must_exist: self.must_exist,
        }
    }
}

/// The target that an id means, given the notebook and the item that are named in it.
pub open spec fn targeted(
    default: Option<Seq<char>>,
    id: Seq<char>,
    embedded: Option<(Seq<char>, Seq<char>)>,
    notebook: Option<Seq<char>>,
) -> Result<Targeted, NbErrorView> {
    match embedded {
        Some((own, path)) => if notebook matches Some(given) && given != own {
            Err(
                error::invalid(
                    "ambiguous selector: id targets notebook `"@ + own
                        + "`, but notebook field is `"@ + notebook->0 + "`"@,
                ),
            )
        } else {
            Ok(Targeted { notebook: own, selector: own + ":"@ + path, must_exist: true })
        },
        None => match notebook_of(default, notebook) {
            Err(e) => Err(e),
            Ok(name) => Ok(
                Targeted { notebook: name, selector: name + ":"@ + id, must_exist: false },
            ),
        },
    }
}

/// The texts of an optional pair.
pub open spec fn opt_pair(p: Option<(String, String)>) -> Option<(Seq<char>, Seq<char>)> {
    match p {
        Some(p) => Some((p.0@, p.1@)),
        None => None,
    }
}

/// The output of a write, with a warning where it went to another notebook than the default.
pub open spec fn warned(
    default: Option<Seq<char>>,
    output: Seq<char>,
    notebook: Seq<char>,
) -> Seq<char> {
    match default {
        Some(d) => if d == notebook {
            output
        } else {
            diagnostics::with_warning(
                output,
                "Warning: wrote to notebook `"@ + notebook
                    + "`, not the project default notebook `"@ + d
                    + "`. If this was unintended, move or delete the note and retry with the correct notebook/folder."@,
            )
        },
        None => output,
    }
}

/// What follows a look for a notebook.
#[derive(Debug)]
pub enum NotebookStep {
    Ready,
    /// The notebook has to be created with this command.
    Create { args: Vec<String> },
}

/// The model of a [`NotebookStep`].
pub enum Step {
    Ready,
    Create { args: Seq<Seq<char>> },
}

impl View for NotebookStep {
    type V = Step;

    open spec fn view(&self) -> Step {
        match *self {
            NotebookStep::Ready => Step::Ready,
            NotebookStep::Create { args } => Step::Create { args: text::texts(args@) },
        }
    }
}

/// What follows a look for a notebook: one that is missing is created, if that is allowed; any
/// other failure is reported.
pub open spec fn ensured(create: bool, notebook: Seq<char>, check: Result<(), NbErrorView>) -> Result<
    Step,
    NbErrorView,
> {
    match check {
        Ok(()) => Ok(Step::Ready),
        Err(e) => if e is NotFound && create {
            Ok(Step::Create { args: seq!["notebooks"@, "add"@, notebook] })
        } else if e is NotFound {
            Err(
                error::invalid(
                    "notebook not found; create it with the nb CLI (`nb notebooks add "@ + notebook
                        + "`) or remove --no-create-notebook"@,
                ),
            )
        } else {
            Err(e)
        },
    }
}

/// The heading in the content of a note that repeats its title.
pub open spec fn repeated_title(title: Option<Seq<char>>, content: Seq<char>) -> Option<Seq<char>> {
    match title {
        Some(t) => names::duplicate_heading(t, content),
        None => None,
    }
}

/// Why a client refuses a new note before it does anything.
pub open spec fn new_note_refusal(
    client: Client,
    title: Option<Seq<char>>,
    content: Seq<char>,
    folder: Option<Seq<char>>,
) -> Option<NbErrorView> {
    match repeated_title(title, content) {
        Some(heading) => Some(
            NbErrorView::DuplicateTitleHeading { title: title->0, heading },
        ),
        None => if client.allow_top_level_notes || (folder matches Some(f) && text::trim(f).len()
            > 0) {
            None
        } else {
            Some(error::invalid(FOLDER_REQUIRED_MESSAGE@))
        },
    }
}

impl NbClient {
    /// A client; `derived` is the notebook of the Git repository, for a configuration that
    /// names none.
    pub fn new(config: &Config, derived: Option<String>) -> (r: Self)
        ensures
            r@ == (Client {
                default_notebook: match config.notebook {
                    Some(n) => Some(n@),
                    None => error::opt_text(derived),
                },
                create_notebook: config.create_notebook,
                disable_git_signing: config.disable_git_signing,
                allow_top_level_notes: config.allow_top_level_notes,
                gate_timeout_ms: config.gate_timeout_ms,
            }),
    {
        NbClient {
            default_notebook: match &config.notebook {
                Some(n) => Some(n.clone()),
                None => derived,
            },
            create_notebook: config.create_notebook,
            disable_git_signing: config.disable_git_signing,
            allow_top_level_notes: config.allow_top_level_notes,
            gate_timeout_ms: config.gate_timeout_ms,
        }
    }

    /// How long to wait for a notebook, in milliseconds.
    pub fn gate_timeout(&self) -> (r: u64)
        ensures
            r == self@.gate_timeout_ms,
    {
        self.gate_timeout_ms
    }

    /// Whether signing is switched off.
    pub fn signing_disabled(&self) -> (r: bool)
        ensures
            r == self@.disable_git_signing,
    {
        self.disable_git_signing
    }

    /// Refuse a new note without a folder, unless that is allowed.
    pub fn require_folder_for_new_note(&self, folder: Option<&str>) -> (r: Result<(), NbError>)
        ensures
            ({
                let in_folder = text::opt_str(folder) matches Some(f) && text::trim(f).len() > 0;
                match r {
                    Ok(()) => self@.allow_top_level_notes || in_folder,
                    Err(e) => !self@.allow_top_level_notes && !in_folder && e@ == error::invalid(
                        FOLDER_REQUIRED_MESSAGE@,
                    ),
                }
            }),
    {
        if self.allow_top_level_notes {
            return Ok(());
        }
        if let Some(f) = folder {
            if !text::trimmed(f).is_empty() {
                return Ok(());
            }
        }
        Err(NbError::invalid(FOLDER_REQUIRED_MESSAGE))
    }

    /// Refuse a new note whose content repeats its title as a heading, and then one without a
    /// folder.
    pub fn check_new_note(&self, title: Option<&str>, content: &str, folder: Option<&str>) -> (r:
        Result<(), NbError>)
        ensures
            match r {
                Ok(()) => new_note_refusal(
                    self@,
                    text::opt_str(title),
                    content@,
                    text::opt_str(folder),
                ) is None,
                Err(e) => new_note_refusal(
                    self@,
                    text::opt_str(title),
                    content@,
                    text::opt_str(folder),
                ) == Some(e@),
            },
    {
        if let Some(t) = title {
            if let Some(heading) = detect_duplicate_title_heading(t, content) {
                return Err(NbError::DuplicateTitleHeading { title: t.to_string(), heading });
            }
        }
        self.require_folder_for_new_note(folder)
    }

    /// The notebook of a command.
    pub fn resolve_notebook_name(&self, notebook: Option<&str>) -> (r: Result<String, NbError>)
        ensures
            text_agrees(r, notebook_of(self@.default_notebook, text::opt_str(notebook))),
    {
        match notebook {
            Some(name) => Ok(name.to_string()),
            None => match &self.default_notebook {
                Some(name) => Ok(name.clone()),
                None => Err(
                    NbError::invalid("notebook not configured; set --notebook or NB_MCP_NOTEBOOK"),
                ),
            },
        }
    }

    /// The target that an id means, given the notebook and the item that are named in it.
    pub fn resolve_target_selector(
        &self,
        id: &str,
        embedded: Option<(String, String)>,
        notebook: Option<&str>,
    ) -> (r: Result<TargetSelector, NbError>)
        ensures
            match r {
                Ok(t) => targeted(
                    self@.default_notebook,
                    id@,
                    opt_pair(embedded),
                    text::opt_str(notebook),
                ) == Ok::<Targeted, NbErrorView>(t@),
                Err(e) => targeted(
                    self@.default_notebook,
                    id@,
                    opt_pair(embedded),
                    text::opt_str(notebook),
                ) == Err::<Targeted, NbErrorView>(e@),
            },
    {
        match embedded {
            Some((own, path)) => {
                if let Some(given) = notebook {
                    if !text::equal(given, own.as_str()) {
                        let head = text::cat3(
                            "ambiguous selector: id targets notebook `",
                            own.as_str(),
                            "`, but notebook field is `",
                        );
                        let reason = text::cat3(head.as_str(), given, "`");
                        return Err(NbError::invalid(reason.as_str()));
                    }
                }
                let selector = text::cat3(own.as_str(), ":", path.as_str());
                Ok(TargetSelector { notebook: own, selector, must_exist: true })
            },
            None => {
                match self.resolve_notebook_name(notebook) {
                    Err(e) => Err(e),
                    Ok(name) => {
                        let selector = text::cat3(name.as_str(), ":", id);
                        Ok(TargetSelector { notebook: name, selector, must_exist: false })
                    },
                }
            },
        }
    }

    /// The output of a write, with a warning where it went to another notebook than the
    /// default.
    pub fn append_notebook_warning(&self, output: String, notebook: &str) -> (r: String)
        ensures
            r@ == warned(self@.default_notebook, output@, notebook@),
    {
        match &self.default_notebook {
            None => output,
            Some(default) => {
                if text::equal(default.as_str(), notebook) {
                    return output;
                }
                let warning = text::cat5(
                    "Warning: wrote to notebook `",
                    notebook,
                    "`, not the project default notebook `",
                    default.as_str(),
                    "`. If this was unintended, move or delete the note and retry with the correct notebook/folder.",
                );
                append_warning(output, warning)
            },
        }
    }

    /// What follows a look for a notebook: one that is missing is created, if that is allowed;
    /// any other failure is reported.
    pub fn ensure_notebook(&self, notebook: &str, check: Result<(), NbError>) -> (r: Result<
        NotebookStep,
        NbError,
    >)
        ensures
            match r {
                Ok(step) => ensured(
                    self@.create_notebook,
                    notebook@,
                    error::viewed(check),
                ) == Ok::<Step, NbErrorView>(step@),
                Err(e) => ensured(
                    self@.create_notebook,
                    notebook@,
                    error::viewed(check),
                ) == Err::<Step, NbErrorView>(e@),
            },
    {
        match check {
            Ok(()) => Ok(NotebookStep::Ready),
            Err(e) => {
                if !matches!(e, NbError::NotFound { .. }) {
                    return Err(e);
                }
                if !self.create_notebook {
                    let reason = text::cat3(
                        "notebook not found; create it with the nb CLI (`nb notebooks add ",
                        notebook,
                        "`) or remove --no-create-notebook",
                    );
                    return Err(NbError::invalid(reason.as_str()));
                }
                let mut args = text::no_texts();
                text::push_text(&mut args, "notebooks");
                text::push_text(&mut args, "add");
                text::push_text(&mut args, notebook);
                assert(text::texts(args@) =~= seq!["notebooks"@, "add"@, notebook@]);
                Ok(NotebookStep::Create { args })
            },
        }
    }
}

/// The arguments of the command that shows the path of a notebook.
pub fn notebook_path_args(notebook: &str) -> (r: Vec<String>)
    ensures
        text::texts(r@) == seq!["notebooks"@, "show"@, notebook@, "--path"@],
{
    let mut args = text::no_texts();
    text::push_text(&mut args, "notebooks");
    text::push_text(&mut args, "show");
    text::push_text(&mut args, notebook);
    text::push_text(&mut args, "--path");
    assert(text::texts(args@) =~= seq!["notebooks"@, "show"@, notebook@, "--path"@]);
    args
}

/// The path that a command printed, or the failure of a command that printed none.
pub open spec fn path_printed(output: Seq<char>, command: Seq<char>, complaint: Seq<char>) -> Result<
    Seq<char>,
    NbErrorView,
> {
    if text::trim(output).len() == 0 {
        Err(NbErrorView::CommandFailed { command, stderr: complaint, exit_code: None })
    } else {
        Ok(text::trim(output))
    }
}

/// The path that a command printed.
fn printed_path(output: &str, command: String, complaint: &str) -> (r: Result<String, NbError>)
    ensures
        text_agrees(r, path_printed(output@, command@, complaint@)),
{
    let path = text::trimmed(output);
    if path.is_empty() {
        return Err(
            NbError::CommandFailed { command, stderr: complaint.to_string(), exit_code: None },
        );
    }
    Ok(path.to_string())
}

/// The path of a notebook that `nb` printed, or the failure.
pub open spec fn notebook_path_printed(notebook: Seq<char>, output: Seq<char>) -> Result<
    Seq<char>,
    NbErrorView,
> {
    path_printed(
        output,
        "nb notebooks show "@ + notebook + " --path"@,
        "nb notebooks path output was empty"@,
    )
}

/// The path of a notebook that `nb` printed.
pub fn notebook_path(notebook: &str, output: &str) -> (r: Result<String, NbError>)
    ensures
        text_agrees(r, notebook_path_printed(notebook@, output@)),
{
    let command = text::cat3("nb notebooks show ", notebook, " --path");
    printed_path(output, command, "nb notebooks path output was empty")
}

/// Whether a notebook is there, given the result of the command that shows its path: the exact
/// diagnostic for a missing notebook is told apart from every other failure.
pub open spec fn checked(notebook: Seq<char>, result: Result<String, NbError>) -> Result<
    (),
    NbErrorView,
> {
    match result {
        Ok(output) => match notebook_path_printed(notebook, output@) {
            Ok(_) => Ok(()),
            Err(e) => Err(e),
        },
        Err(e) => if e matches NbError::CommandFailed { stderr, .. } && diagnostics::diagnoses(
            stderr@,
            "Notebook not found: "@,
            notebook,
        ) {
            Err(NbErrorView::NotFound { selector: notebook + ":"@ })
        } else {
            Err(e@)
        },
    }
}

/// Whether a notebook is there, given the result of the command that shows its path.
pub fn check_notebook(notebook: &str, result: Result<String, NbError>) -> (r: Result<(), NbError>)
    ensures
        error::viewed(r) == checked(notebook@, result),
{
    match result {
        Ok(output) => match notebook_path(notebook, output.as_str()) {
            Ok(_) => Ok(()),
            Err(e) => Err(e),
        },
        Err(e) => {
            let missing = match &e {
                NbError::CommandFailed { stderr, .. } => is_notebook_not_found(
                    stderr.as_str(),
                    notebook,
                ),
                _ => false,
            };
            if missing {
                Err(NbError::NotFound { selector: text::cat2(notebook, ":") })
            } else {
                Err(e)
            }
        },
    }
}

/// The pattern of the escape sequences that terminals understand.
pub const ANSI_PATTERN: &'static str =
    "\\x1B(?:[@-Z\\\\-_]|\\[[0-?]*[ -/]*[@-~]|[ -/]*[0-~])";

/// The text that remains when every match of a regular expression is removed.
pub uninterp spec fn removed_text(pattern: Seq<char>, s: Seq<char>) -> Seq<char>;

/// `regex::Regex::new` and `regex::Regex::replace_all` with an empty replacement, for the
/// pattern of escape sequences, which compiles. What remains depends on the pattern and the
/// text alone; a text without an escape character, which every match starts with, stays as it
/// is. What remains of other texts is not said.
#[verifier::external_body]
fn remove_matches(pattern: &str, s: &str) -> (r: String)
    requires
        pattern@ == ANSI_PATTERN@,
    ensures
        r@ == removed_text(pattern@, s@),
        !s@.contains('\u{1b}') ==> r@ == s@,
{
    regex::Regex::new(pattern).unwrap().replace_all(s, "").into_owned()
}

/// A text without escape sequences.
pub open spec fn plain_text(s: Seq<char>) -> Seq<char> {
    removed_text(ANSI_PATTERN@, s)
}

/// A text without escape sequences.
pub fn strip_ansi(s: &str) -> (r: String)
    ensures
        r@ == plain_text(s@),
        !s@.contains('\u{1b}') ==> r@ == s@,
{
    remove_matches(ANSI_PATTERN, s)
}

/// The result of an `nb` command from its outputs without escape sequences: what it printed, or
/// its failure with what it printed on the error output, or else on the other.
pub open spec fn command_outcome(
    args: Seq<Seq<char>>,
    success: bool,
    code: Option<i32>,
    stdout: Seq<char>,
    stderr: Seq<char>,
    errors_empty: bool,
) -> Result<Seq<char>, NbErrorView> {
    if success {
        Ok(stdout)
    } else {
        Err(
            NbErrorView::CommandFailed {
                command: "nb "@ + text::join(args, " "@),
                stderr: if errors_empty {
                    stdout
                } else {
                    stderr
                },
                exit_code: code,
            },
        )
    }
}

/// The result of an `nb` command from its outputs without escape sequences; `errors_empty` says
/// whether it printed nothing at all on the error output.
pub fn command_result(
    args: &Vec<String>,
    success: bool,
    code: Option<i32>,
    stdout: String,
    stderr: String,
    errors_empty: bool,
) -> (r: Result<String, NbError>)
    ensures
        text_agrees(
            r,
            command_outcome(text::texts(args@), success, code, stdout@, stderr@, errors_empty),
        ),
{
    if success {
        return Ok(stdout);
    }
    let line = text::join_with(args, " ");
    Err(
        NbError::CommandFailed {
            command: text::cat2("nb ", line.as_str()),
            stderr: if errors_empty {
                stdout
            } else {
                stderr
            },
            exit_code: code,
        },
    )
}

/// The result of an `nb` command, with escape sequences removed.
pub fn exec(args: &Vec<String>, p: &Finished) -> (r: Result<String, NbError>)
    ensures
        text_agrees(
            r,
            command_outcome(
                text::texts(args@),
                p.success,
                p.code,
                plain_text(text::lossy_text(p.stdout@)),
                plain_text(text::lossy_text(p.stderr@)),
                text::lossy_text(p.stderr@).len() == 0,
            ),
        ),
{
    let out = text::from_utf8_lossy(p.stdout.as_slice());
    let err = text::from_utf8_lossy(p.stderr.as_slice());
    let errors_empty = err.as_str().is_empty();
    command_result(
        args,
        p.success,
        p.code,
        strip_ansi(out.as_str()),
        strip_ansi(err.as_str()),
        errors_empty,
    )
}

/// `nb` could not be started or waited for.
pub fn nb_not_started(missing: bool, source: IoError) -> (r: NbError)
    ensures
        r@ == (if missing {
            NbErrorView::ExecutableNotFound { path: "nb"@ }
        } else {
            NbErrorView::Io { path: "nb"@, source }
        }),
{
    if missing {
        NbError::ExecutableNotFound { path: "nb".to_string() }
    } else {
        NbError::Io { path: "nb".to_string(), source }
    }
}

/// A notebook is only created where that is allowed and `nb` said exactly that it is missing:
/// no other failure of the command leads there.
pub proof fn law_other_failures_create_nothing(
    create: bool,
    notebook: Seq<char>,
    result: Result<String, NbError>,
)
    requires
        !(result matches Err(NbError::NotFound { .. })),
        ensured(create, notebook, checked(notebook, result)) matches Ok(Step::Create { .. }),
    ensures
        create,
        result matches Err(NbError::CommandFailed { stderr, .. }) && diagnostics::diagnoses(
            stderr@,
            "Notebook not found: "@,
            notebook,
        ),
{
}
/// The notebook and the item of an id that names both: what stands before its first colon, and
/// behind it.
pub fn qualified(id: &str) -> (r: Option<(String, String)>)
    ensures
        match r {
            Some((notebook, item)) => id@ == notebook@ + seq![':'] + item@ && !notebook@.contains(
                ':',
            ),
            None => !id@.contains(':'),
        },
{
    let x = text::chars_of(id);
    let mut i: usize = 0;
    while i < x.len()
        invariant
            i <= x.len(),
            x@ == id@,
            forall|k: int| 0 <= k < i ==> x@[k] != ':',
        decreases x.len() - i,
    {
        if x[i] == ':' {
            let notebook = text::string_of(vstd::slice::slice_subrange(x.as_slice(), 0, i));
            let item = text::string_of(
                vstd::slice::slice_subrange(x.as_slice(), i + 1, x.len()),
            );
            assert(id@ =~= notebook@ + seq![':'] + item@);
            return Some((notebook, item));
        }
        i += 1;
    }
    None
}

} // verus!
