//! Setting up an isolated notebook: which files are written, which commands are run, and when
//! the notebook is ready.

use crate::error;
use crate::git::Finished;
use crate::git_signing;
use crate::paths;
use crate::paths::join;
use crate::text;
use vstd::prelude::*;

verus! {

/// The notebook of a fixture that names none.
pub const DEFAULT_NOTEBOOK: &'static str = "scratch";

/// The author of the commits of a fixture.
pub const GIT_AUTHOR_NAME: &'static str = "nb-api tests";

/// The address of the author of the commits of a fixture.
pub const GIT_AUTHOR_EMAIL: &'static str = "nb-api@localhost";

/// How often the state of a new notebook is looked at.
pub const SETTLE_ROUNDS: u32 = 50;

/// What a fixture is made with.
#[derive(Debug)]
pub struct NbTestEnvBuilder {
    notebook: Option<String>,
    working_directory: Option<String>,
}

/// The model of an [`NbTestEnvBuilder`].
pub struct Builder {
    pub notebook: Option<Seq<char>>,
    pub working_directory: Option<Seq<char>>,
}

impl View for NbTestEnvBuilder {
    type V = Builder;

    closed spec fn view(&self) -> Builder {
        Builder {
            notebook: error::opt_text(self.notebook),
            working_directory: error::opt_text(self.working_directory),
        }
    }
}

/// The folders and the notebook of a fixture.
#[derive(Debug)]
pub struct FixtureLayout {
    pub nb_dir: String,
    pub working_dir: String,
    pub home_dir: String,
    pub notebook: String,
    /// The working directory belongs to the fixture and has to be made.
    pub owns_working_dir: bool,
    /// What the platform writes between the parts of a path.
    pub separator: char,
}

/// The model of a [`FixtureLayout`].
pub struct Layout {
    pub nb_dir: Seq<char>,
    pub working_dir: Seq<char>,
    pub home_dir: Seq<char>,
    pub notebook: Seq<char>,
    pub owns_working_dir: bool,
    /// What the platform writes between the parts of a path.
    pub separator: char,
}

impl View for FixtureLayout {
    type V = Layout;

    open spec fn view(&self) -> Layout {
        Layout {
            nb_dir: self.nb_dir@,
            working_dir: self.working_dir@,
            home_dir: self.home_dir@,
            notebook: self.notebook@,
            owns_working_dir: self.owns_working_dir,
            separator: self.separator,
        }
    }
}

impl Default for NbTestEnvBuilder {
    fn default() -> (r: Self)
        ensures
            r@ == (Builder { notebook: None, working_directory: None }),
    {
        NbTestEnvBuilder { notebook: None, working_directory: None }
    }
}

impl NbTestEnvBuilder {
    /// Name the notebook.
    pub fn notebook(self, name: &str) -> (r: Self)
        ensures
            r@ == (Builder { notebook: Some(name@), ..self@ }),
    {
        NbTestEnvBuilder {
            notebook: Some(name.to_string()),
            working_directory: self.working_directory,
        }
    }

    /// Name the working directory; it is left alone when the fixture goes.
    pub fn working_directory(self, path: &str) -> (r: Self)
        ensures
            r@ == (Builder { working_directory: Some(path@), ..self@ }),
    {
        NbTestEnvBuilder { notebook: self.notebook, working_directory: Some(path.to_string()) }
    }

    /// The folders of the fixture below its root.
    pub fn layout(self, root: &str, separator: char) -> (r: FixtureLayout)
        ensures
            r@ == (Layout {
                nb_dir: paths::joined(root@, ".nb"@, separator),
                working_dir: match self@.working_directory {
                    Some(p) => p,
                    None => paths::joined(root@, "work"@, separator),
                },
                home_dir: paths::joined(root@, "home"@, separator),
                notebook: match self@.notebook {
                    Some(n) => n,
                    None => DEFAULT_NOTEBOOK@,
                },
                owns_working_dir: self@.working_directory is None,
                separator,
            }),
    {
        let owns_working_dir = self.working_directory.is_none();
        FixtureLayout {
            nb_dir: join(root, ".nb", separator),
            working_dir: match self.working_directory {
                Some(p) => p,
                None => join(root, "work", separator),
            },
            home_dir: join(root, "home", separator),
            notebook: match self.notebook {
                Some(n) => n,
                None => DEFAULT_NOTEBOOK.to_string(),
            },
            owns_working_dir,
            separator,
        }
    }
}

/// The settings that make Git behave the same everywhere.
pub open spec fn config_vars() -> Seq<(Seq<char>, Seq<char>)> {
    seq![
        ("GIT_CONFIG_COUNT"@, "4"@),
        ("GIT_CONFIG_KEY_0"@, "commit.gpgsign"@),
        ("GIT_CONFIG_VALUE_0"@, "false"@),
        ("GIT_CONFIG_KEY_1"@, "tag.gpgsign"@),
        ("GIT_CONFIG_VALUE_1"@, "false"@),
        ("GIT_CONFIG_KEY_2"@, "core.autocrlf"@),
        ("GIT_CONFIG_VALUE_2"@, "false"@),
        ("GIT_CONFIG_KEY_3"@, "core.eol"@),
        ("GIT_CONFIG_VALUE_3"@, "lf"@),
    ]
}

fn var(name: &str, value: &str) -> (r: (String, String))
    ensures
        (r.0@, r.1@) == (name@, value@),
{
    (name.to_string(), value.to_string())
}

/// The variables with the settings that make Git behave the same everywhere.
pub fn git_config_env() -> (r: Vec<(String, String)>)
    ensures
        git_signing::vars(r@) == config_vars(),
{
    let mut out: Vec<(String, String)> = Vec::new();
    out.push(var("GIT_CONFIG_COUNT", "4"));
    out.push(var("GIT_CONFIG_KEY_0", "commit.gpgsign"));
    out.push(var("GIT_CONFIG_VALUE_0", "false"));
    out.push(var("GIT_CONFIG_KEY_1", "tag.gpgsign"));
    out.push(var("GIT_CONFIG_VALUE_1", "false"));
    out.push(var("GIT_CONFIG_KEY_2", "core.autocrlf"));
    out.push(var("GIT_CONFIG_VALUE_2", "false"));
    out.push(var("GIT_CONFIG_KEY_3", "core.eol"));
    out.push(var("GIT_CONFIG_VALUE_3", "lf"));
    assert(git_signing::vars(out@) =~= config_vars());
    out
}

/// A command of a fixture that failed.
#[derive(Debug, Clone, PartialEq, Eq)]
pub struct NbFailure {
    pub status: String,
    pub stdout: String,
    pub stderr: String,
}

/// The model of an [`NbFailure`].
pub struct Failed {
    pub status: Seq<char>,
    pub stdout: Seq<char>,
    pub stderr: Seq<char>,
}

impl View for NbFailure {
    type V = Failed;

    open spec fn view(&self) -> Failed {
        Failed { status: self.status@, stdout: self.stdout@, stderr: self.stderr@ }
    }
}

/// An output in a message.
pub open spec fn output_text(s: Seq<char>) -> Seq<char> {
    if s.len() == 0 {
        "<empty>"@
    } else {
        s
    }
}

/// The message of a failure.
pub open spec fn failure_message(f: Failed) -> Seq<char> {
    "exit status: "@ + f.status + "\nstdout: "@ + output_text(f.stdout) + "\nstderr: "@
        + output_text(f.stderr)
}

fn show_output(s: &str) -> (r: String)
    ensures
        r@ == output_text(s@),
{
    if s.is_empty() {
        "<empty>".to_string()
    } else {
        s.to_string()
    }
}

impl NbFailure {
    /// The message of the failure.
    pub fn message_text(&self) -> (r: String)
        ensures
            r@ == failure_message(self@),
    {
        let out = show_output(self.stdout.as_str());
        let err = show_output(self.stderr.as_str());
        let head = text::cat3("exit status: ", self.status.as_str(), "\nstdout: ");
        text::cat4(head.as_str(), out.as_str(), "\nstderr: ", err.as_str())
    }
}

/// Why a fixture could not be set up.
#[derive(Debug, Clone, PartialEq, Eq)]
pub enum NbTestError {
    Io { context: String, message: String },
    Nb { context: String, failure: NbFailure },
}

/// The model of an [`NbTestError`].
pub enum TestError {
    Io { context: Seq<char>, message: Seq<char> },
    Nb { context: Seq<char>, failure: Failed },
}

impl View for NbTestError {
    type V = TestError;

    open spec fn view(&self) -> TestError {
        match *self {
            NbTestError::Io { context, message } => TestError::Io {
                context: context@,
                message: message@,
            },
            NbTestError::Nb { context, failure } => TestError::Nb {
                context: context@,
                failure: failure@,
            },
        }
    }
}

/// The message of an error.
pub open spec fn error_message(e: TestError) -> Seq<char> {
    match e {
        TestError::Io { context, message } => "io error during "@ + context + ": "@ + message,
        TestError::Nb { context, failure } => "nb command failed during "@ + context + ": "@
            + failure_message(failure),
    }
}

impl NbTestError {
    /// The message of the error.
    pub fn message_text(&self) -> (r: String)
        ensures
            r@ == error_message(self@),
    {
        match self {
            NbTestError::Io { context, message } => text::cat4(
                "io error during ",
                context.as_str(),
                ": ",
                message.as_str(),
            ),
            NbTestError::Nb { context, failure } => {
                let what = failure.message_text();
                text::cat4("nb command failed during ", context.as_str(), ": ", what.as_str())
            },
        }
    }
}

/// What the set-up waits for.
#[derive(Debug, Clone, Copy, PartialEq, Eq, Structural)]
pub enum SetupPhase {
    /// The configuration of Git in the home has been written.
    Identity,
    /// The stub that keeps `nb` from asking questions has been made.
    Stub,
    /// The notebook has been added.
    Added,
    /// The notebook is the current one.
    Current,
    /// The repository of the notebook is configured.
    Configured,
    /// The status of the repository is known.
    Status,
    /// Everything has been staged.
    Staged,
    /// A commit has been tried.
    Committed,
    /// The set-up is over.
    Over,
}

/// What is done next.
#[derive(Debug)]
pub enum SetupAction {
    WriteFile { path: String, content: String },
    MakeFolder { path: String },
    /// Run `nb` with the stub as its notebook.
    RunNb { args: Vec<String> },
    /// Run Git in the notebook.
    RunGit { args: Vec<String> },
    /// Wait a moment, and look at the status again.
    RestAndCheck { args: Vec<String> },
    Ready,
    Fail { error: NbTestError },
}

/// The model of a [`SetupAction`].
pub enum Act {
    WriteFile { path: Seq<char>, content: Seq<char> },
    MakeFolder { path: Seq<char> },
    RunNb { args: Seq<Seq<char>> },
    RunGit { args: Seq<Seq<char>> },
    RestAndCheck { args: Seq<Seq<char>> },
    Ready,
    Fail { error: TestError },
}

impl View for SetupAction {
    type V = Act;

    open spec fn view(&self) -> Act {
        match *self {
            SetupAction::WriteFile { path, content } => Act::WriteFile {
                path: path@,
                content: content@,
            },
            SetupAction::MakeFolder { path } => Act::MakeFolder { path: path@ },
            SetupAction::RunNb { args } => Act::RunNb { args: text::texts(args@) },
            SetupAction::RunGit { args } => Act::RunGit { args: text::texts(args@) },
            SetupAction::RestAndCheck { args } => Act::RestAndCheck { args: text::texts(args@) },
            SetupAction::Ready => Act::Ready,
            SetupAction::Fail { error } => Act::Fail { error: error@ },
        }
    }
}

/// What came of an action.
#[derive(Debug)]
pub enum SetupEvent {
    /// A file or a folder is there.
    Done,
    /// A command ran; `status` is its exit status in words.
    Ran { process: Finished, status: String },
    /// The system refused; `missing` says that the executable is not there.
    Refused { missing: bool, message: String },
}

/// A set-up under way.
#[derive(Debug)]
pub struct Setup {
    layout: FixtureLayout,
    phase: SetupPhase,
    clean: u32,
    rounds: u32,
}

/// The model of a [`Setup`].
pub struct SetupView {
    pub layout: Layout,
    pub phase: SetupPhase,
    /// How often in a row the repository was clean.
    pub clean: u32,
    /// How often the status may still be looked at.
    pub rounds: u32,
}

impl View for Setup {
    type V = SetupView;

    closed spec fn view(&self) -> SetupView {
        SetupView {
            layout: self.layout@,
            phase: self.phase,
            clean: self.clean,
            rounds: self.rounds,
        }
    }
}

/// The root of the notebook.
pub open spec fn notebook_root(l: Layout) -> Seq<char> {
    paths::joined(l.nb_dir, l.notebook, l.separator)
}

/// What an action is about, for an error.
pub open spec fn context_of(s: SetupView, ran: bool) -> Seq<char> {
    let root = notebook_root(s.layout);
    match s.phase {
        SetupPhase::Identity => "write .gitconfig to "@ + paths::joined(
            s.layout.home_dir,
            ".gitconfig"@,
            s.layout.separator,
        ),
        SetupPhase::Stub => "create init stub at "@ + paths::joined(
            s.layout.nb_dir,
            ".init_stub"@,
            s.layout.separator,
        ),
        SetupPhase::Added => if ran {
            "`nb notebooks add "@ + s.layout.notebook + "`"@
        } else {
            "spawn `nb notebooks add "@ + s.layout.notebook + "`"@
        },
        SetupPhase::Current => "write .current to "@ + paths::joined(
            s.layout.nb_dir,
            ".current"@,
            s.layout.separator,
        ),
        SetupPhase::Configured => "fixture baseline `git config core.autocrlf false` in "@ + root,
        SetupPhase::Status => "fixture baseline `git status --porcelain` in "@ + root,
        SetupPhase::Staged => "fixture baseline `git add -A` in "@ + root,
        SetupPhase::Committed => "fixture baseline `git commit` in "@ + root,
        SetupPhase::Over => "fixture baseline did not settle clean in "@ + root,
    }
}

/// What an action is about, for an error.
fn context(layout: &FixtureLayout, phase: SetupPhase, ran: bool, Ghost(s): Ghost<SetupView>) -> (r:
    String)
    requires
        s.layout == layout@,
        s.phase == phase,
    ensures
        r@ == context_of(s, ran),
{
    let root = join(layout.nb_dir.as_str(), layout.notebook.as_str(), layout.separator);
    match phase {
        SetupPhase::Identity => {
            let p = join(layout.home_dir.as_str(), ".gitconfig", layout.separator);
            text::cat2("write .gitconfig to ", p.as_str())
        },
        SetupPhase::Stub => {
            let p = join(layout.nb_dir.as_str(), ".init_stub", layout.separator);
            text::cat2("create init stub at ", p.as_str())
        },
        SetupPhase::Added => {
            if ran {
                text::cat3("`nb notebooks add ", layout.notebook.as_str(), "`")
            } else {
                text::cat3("spawn `nb notebooks add ", layout.notebook.as_str(), "`")
            }
        },
        SetupPhase::Current => {
            let p = join(layout.nb_dir.as_str(), ".current", layout.separator);
            text::cat2("write .current to ", p.as_str())
        },
        SetupPhase::Configured => text::cat2(
            "fixture baseline `git config core.autocrlf false` in ",
            root.as_str(),
        ),
        SetupPhase::Status => text::cat2(
            "fixture baseline `git status --porcelain` in ",
            root.as_str(),
        ),
        SetupPhase::Staged => text::cat2("fixture baseline `git add -A` in ", root.as_str()),
        SetupPhase::Committed => text::cat2("fixture baseline `git commit` in ", root.as_str()),
        SetupPhase::Over => text::cat2(
            "fixture baseline did not settle clean in ",
            root.as_str(),
        ),
    }
}

/// A command of the set-up that failed.
pub open spec fn failure_of(s: SetupView, p: Finished, status: Seq<char>) -> TestError {
    TestError::Nb {
        context: context_of(s, true),
        failure: Failed {
            status,
            stdout: text::lossy_text(p.stdout@),
            stderr: text::lossy_text(p.stderr@),
        },
    }
}

/// The set-up in another phase.
pub open spec fn at_phase(s: SetupView, phase: SetupPhase) -> SetupView {
    SetupView { phase, ..s }
}

/// The set-up ends.
pub open spec fn ended(s: SetupView, act: Act) -> (SetupView, Act) {
    (at_phase(s, SetupPhase::Over), act)
}

/// The arguments of the look at the status.
pub open spec fn status_args() -> Seq<Seq<char>> {
    seq!["status"@, "--porcelain"@, "-uall"@, "--ignored=no"@]
}

/// A commit that was refused because there was nothing to commit.
pub open spec fn nothing_to_commit(p: Finished) -> bool {
    text::find_text(text::lossy_text(p.stdout@), "nothing to commit"@, 0) is Some || text::find_text(
        text::lossy_text(p.stderr@),
        "nothing to commit"@,
        0,
    ) is Some
}

/// Git is not on the path of the process: a fixture without its baseline is still usable.
pub open spec fn in_repository(phase: SetupPhase) -> bool {
    phase == SetupPhase::Configured || phase == SetupPhase::Status || phase == SetupPhase::Staged
        || phase == SetupPhase::Committed
}

/// The refusal of a notebook that is never clean.
pub open spec fn unsettled(s: SetupView) -> TestError {
    TestError::Io {
        context: context_of(at_phase(s, SetupPhase::Over), true),
        message: "notebook repo never reached a clean baseline"@,
    }
}

/// What follows when a file or a folder is there.
pub open spec fn made(s: SetupView) -> (SetupView, Act) {
    match s.phase {
        SetupPhase::Identity => (
            at_phase(s, SetupPhase::Stub),
            Act::MakeFolder {
                path: paths::joined(s.layout.nb_dir, ".init_stub"@, s.layout.separator),
            },
        ),
        SetupPhase::Stub => (
            at_phase(s, SetupPhase::Added),
            Act::RunNb { args: seq!["notebooks"@, "add"@, s.layout.notebook] },
        ),
        SetupPhase::Current => (
            at_phase(s, SetupPhase::Configured),
            Act::RunGit { args: seq!["config"@, "core.autocrlf"@, "false"@] },
        ),
        _ => ended(s, Act::Fail { error: unsettled(s) }),
    }
}

/// What follows a command. The notebook is ready when it was clean twice in a row.
pub open spec fn ran(s: SetupView, p: Finished, status: Seq<char>) -> (SetupView, Act) {
    match s.phase {
        SetupPhase::Added => if p.success {
            (
                at_phase(s, SetupPhase::Current),
                Act::WriteFile {
                    path: paths::joined(s.layout.nb_dir, ".current"@, s.layout.separator),
                    content: s.layout.notebook,
                },
            )
        } else {
            ended(s, Act::Fail { error: failure_of(s, p, status) })
        },
        SetupPhase::Configured => if p.success {
            (at_phase(s, SetupPhase::Status), Act::RunGit { args: status_args() })
        } else {
            ended(s, Act::Fail { error: failure_of(s, p, status) })
        },
        SetupPhase::Status => if !p.success {
            ended(s, Act::Fail { error: failure_of(s, p, status) })
        } else {
            let is_clean = text::trim(text::lossy_text(p.stdout@)).len() == 0;
            if is_clean && s.clean >= 1 {
                ended(s, Act::Ready)
            } else {
                (
                    SetupView {
                        phase: SetupPhase::Staged,
                        clean: if is_clean {
                            1
                        } else {
                            0
                        },
                        ..s
                    },
                    Act::RunGit { args: seq!["add"@, "-A"@] },
                )
            }
        },
        SetupPhase::Staged => if p.success {
            (
                at_phase(s, SetupPhase::Committed),
                Act::RunGit { args: seq!["commit"@, "-m"@, "[nb] Initialize"@] },
            )
        } else {
            ended(s, Act::Fail { error: failure_of(s, p, status) })
        },
        SetupPhase::Committed => if !p.success && !nothing_to_commit(p) {
            ended(s, Act::Fail { error: failure_of(s, p, status) })
        } else if s.rounds <= 1 {
            ended(s, Act::Fail { error: unsettled(s) })
        } else {
            (
                SetupView { phase: SetupPhase::Status, rounds: (s.rounds - 1) as u32, ..s },
                Act::RestAndCheck { args: status_args() },
            )
        },
        _ => ended(s, Act::Fail { error: unsettled(s) }),
    }
}

/// What follows an event.
pub open spec fn followed(s: SetupView, event: SetupEvent) -> (SetupView, Act) {
    match event {
        SetupEvent::Done => made(s),
        SetupEvent::Ran { process, status } => ran(s, process, status@),
        SetupEvent::Refused { missing, message } => if missing && in_repository(s.phase) {
            ended(s, Act::Ready)
        } else {
            ended(
                s,
                Act::Fail {
                    error: TestError::Io { context: context_of(s, false), message: message@ },
                },
            )
        },
    }
}

/// The arguments of the look at the status.
fn status_command() -> (r: Vec<String>)
    ensures
        text::texts(r@) == status_args(),
{
    let mut args = text::no_texts();
    text::push_text(&mut args, "status");
    text::push_text(&mut args, "--porcelain");
    text::push_text(&mut args, "-uall");
    text::push_text(&mut args, "--ignored=no");
    assert(text::texts(args@) =~= status_args());
    args
}

/// Three arguments.
fn three(a: &str, b: &str, c: &str) -> (r: Vec<String>)
    ensures
        text::texts(r@) == seq![a@, b@, c@],
{
    let mut args = text::no_texts();
    text::push_text(&mut args, a);
    text::push_text(&mut args, b);
    text::push_text(&mut args, c);
    assert(text::texts(args@) =~= seq![a@, b@, c@]);
    args
}

impl Setup {
    /// Start: the configuration of Git is written to the home of the fixture.
    pub fn start(layout: FixtureLayout) -> (r: (Self, SetupAction))
        ensures
            r.0@ == (SetupView {
                layout: layout@,
                phase: SetupPhase::Identity,
                clean: 0,
                rounds: SETTLE_ROUNDS,
            }),
            r.1@ == (Act::WriteFile {
                path: paths::joined(layout@.home_dir, ".gitconfig"@, layout@.separator),
                content: "[user]\n\tname = "@ + GIT_AUTHOR_NAME@ + "\n\temail = "@
                    + GIT_AUTHOR_EMAIL@ + "\n"@,
            }),
    {
        let path = join(layout.home_dir.as_str(), ".gitconfig", layout.separator);
        let content = text::cat5(
            "[user]\n\tname = ",
            GIT_AUTHOR_NAME,
            "\n\temail = ",
            GIT_AUTHOR_EMAIL,
            "\n",
        );
        (
            Setup { layout, phase: SetupPhase::Identity, clean: 0, rounds: SETTLE_ROUNDS },
            SetupAction::WriteFile { path, content },
        )
    }

    fn finish(self, action: SetupAction) -> (r: (Self, SetupAction))
        ensures
            (r.0@, r.1@) == ended(self@, action@),
    {
        (
            Setup {
                layout: self.layout,
                phase: SetupPhase::Over,
                clean: self.clean,
                rounds: self.rounds,
            },
            action,
        )
    }

    fn at(self, phase: SetupPhase) -> (r: Self)
        ensures
            r@ == at_phase(self@, phase),
    {
        Setup { layout: self.layout, phase, clean: self.clean, rounds: self.rounds }
    }

    fn fail_unsettled(self) -> (r: (Self, SetupAction))
        ensures
            (r.0@, r.1@) == ended(self@, Act::Fail { error: unsettled(self@) }),
    {
        let where_ = context(
            &self.layout,
            SetupPhase::Over,
            true,
            Ghost(at_phase(self@, SetupPhase::Over)),
        );
        self.finish(
            SetupAction::Fail {
                error: NbTestError::Io {
                    context: where_,
                    message: "notebook repo never reached a clean baseline".to_string(),
                },
            },
        )
    }

    fn fail_command(self, p: &Finished, status: String) -> (r: (Self, SetupAction))
        ensures
            (r.0@, r.1@) == ended(self@, Act::Fail { error: failure_of(self@, *p, status@) }),
    {
        let where_ = context(&self.layout, self.phase, true, Ghost(self@));
        let failure = NbFailure {
            status,
            stdout: text::from_utf8_lossy(p.stdout.as_slice()),
            stderr: text::from_utf8_lossy(p.stderr.as_slice()),
        };
        self.finish(SetupAction::Fail { error: NbTestError::Nb { context: where_, failure } })
    }

    fn after_made(self) -> (r: (Self, SetupAction))
        ensures
            (r.0@, r.1@) == made(self@),
    {
        match self.phase {
            SetupPhase::Identity => {
                let path = join(self.layout.nb_dir.as_str(), ".init_stub", self.layout.separator);
                (self.at(SetupPhase::Stub), SetupAction::MakeFolder { path })
            },
            SetupPhase::Stub => {
                let args = three("notebooks", "add", self.layout.notebook.as_str());
                (self.at(SetupPhase::Added), SetupAction::RunNb { args })
            },
            SetupPhase::Current => {
                let args = three("config", "core.autocrlf", "false");
                (self.at(SetupPhase::Configured), SetupAction::RunGit { args })
            },
            _ => self.fail_unsettled(),
        }
    }

    fn after_run(self, p: &Finished, status: String) -> (r: (Self, SetupAction))
        ensures
            (r.0@, r.1@) == ran(self@, *p, status@),
    {
        match self.phase {
            SetupPhase::Added => {
                if !p.success {
                    return self.fail_command(p, status);
                }
                let path = join(self.layout.nb_dir.as_str(), ".current", self.layout.separator);
                let content = self.layout.notebook.clone();
                (self.at(SetupPhase::Current), SetupAction::WriteFile { path, content })
            },
            SetupPhase::Configured => {
                if !p.success {
                    return self.fail_command(p, status);
                }
                (self.at(SetupPhase::Status), SetupAction::RunGit { args: status_command() })
            },
            SetupPhase::Status => {
                if !p.success {
                    return self.fail_command(p, status);
                }
                let out = text::from_utf8_lossy(p.stdout.as_slice());
                let is_clean = text::trimmed(out.as_str()).is_empty();
                if is_clean && self.clean >= 1 {
                    return self.finish(SetupAction::Ready);
                }
                let mut args = text::no_texts();
                text::push_text(&mut args, "add");
                text::push_text(&mut args, "-A");
                assert(text::texts(args@) =~= seq!["add"@, "-A"@]);
                (
                    Setup {
                        layout: self.layout,
                        phase: SetupPhase::Staged,
                        clean: if is_clean {
                            1
                        } else {
                            0
                        },
                        rounds: self.rounds,
                    },
                    SetupAction::RunGit { args },
                )
            },
            SetupPhase::Staged => {
                if !p.success {
                    return self.fail_command(p, status);
                }
                let args = three("commit", "-m", "[nb] Initialize");
                (self.at(SetupPhase::Committed), SetupAction::RunGit { args })
            },
            SetupPhase::Committed => {
                if !p.success {
                    let out = text::from_utf8_lossy(p.stdout.as_slice());
                    let err = text::from_utf8_lossy(p.stderr.as_slice());
                    if text::find_text_in(out.as_str(), "nothing to commit").is_none()
                        && text::find_text_in(err.as_str(), "nothing to commit").is_none() {
                        return self.fail_command(p, status);
                    }
                }
                if self.rounds <= 1 {
                    return self.fail_unsettled();
                }
                (
                    Setup {
                        layout: self.layout,
                        phase: SetupPhase::Status,
                        clean: self.clean,
                        rounds: self.rounds - 1,
                    },
                    SetupAction::RestAndCheck { args: status_command() },
                )
            },
            _ => self.fail_unsettled(),
        }
    }

    /// Take what came of an action and say what is done next.
    pub fn next(self, event: SetupEvent) -> (r: (Self, SetupAction))
        ensures
            (r.0@, r.1@) == followed(self@, event),
    {
        match event {
            SetupEvent::Done => self.after_made(),
            SetupEvent::Ran { process, status } => self.after_run(&process, status),
            SetupEvent::Refused { missing, message } => {
                let in_repo = match self.phase {
                    SetupPhase::Configured => true,
                    SetupPhase::Status => true,
                    SetupPhase::Staged => true,
                    SetupPhase::Committed => true,
                    _ => false,
                };
                if missing && in_repo {
                    return self.finish(SetupAction::Ready);
                }
                let where_ = context(&self.layout, self.phase, false, Ghost(self@));
                self.finish(
                    SetupAction::Fail { error: NbTestError::Io { context: where_, message } },
                )
            },
        }
    }
}

/// The steps of a phase that are left before the next look at the status.
pub open spec fn phase_rank(phase: SetupPhase) -> int {
    match phase {
        SetupPhase::Identity => 8,
        SetupPhase::Stub => 7,
        SetupPhase::Added => 6,
        SetupPhase::Current => 5,
        SetupPhase::Configured => 4,
        SetupPhase::Status => 3,
        SetupPhase::Staged => 2,
        SetupPhase::Committed => 1,
        SetupPhase::Over => 0,
    }
}

/// Whatever happens, the set-up ends: each event leads on or uses up a round.
pub proof fn law_setup_ends(s: SetupView, event: SetupEvent)
    requires
        s.phase != SetupPhase::Over,
    ensures
        ({
            let next = followed(s, event).0;
            next.rounds < s.rounds || (next.rounds == s.rounds && phase_rank(next.phase)
                < phase_rank(s.phase))
        }),
{
}

/// A notebook that Git could look at is only ready after it was clean twice in a row.
pub proof fn law_ready_means_clean_twice(s: SetupView, process: Finished, status: String)
    requires
        followed(s, SetupEvent::Ran { process, status }).1 is Ready,
    ensures
        s.phase == SetupPhase::Status,
        s.clean >= 1,
        process.success,
        text::trim(text::lossy_text(process.stdout@)).len() == 0,
{
}

} // verus!
