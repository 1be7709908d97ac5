//! The way of a fixture from its folders to a clean notebook.

use vstd::prelude::*;

use crate::error_laws;
use crate::git::Finished;
use crate::paths;
use crate::testing::fixture;
use crate::testing::fixture::{Act, Failed, SetupEvent, SetupPhase, SetupView, TestError};
use crate::text;
use crate::text_laws;

verus! {

/// A command that succeeded and printed this.
pub open spec fn succeeded(event: SetupEvent, printed: Seq<char>) -> bool {
    event matches SetupEvent::Ran { process, .. } && process.success && text::lossy_text(
        process.stdout@,
    ) == printed
}

/// Where nothing fails and the notebook is clean, a set-up makes the stub, adds the notebook by
/// its name, makes it the current one, has Git keep line ends, looks at the status, adds and
/// commits what there is, looks again, and is ready.
pub proof fn law_undisturbed_setup_is_ready(
    s: SetupView,
    any: Seq<char>,
    blank: Seq<char>,
    ok: SetupEvent,
    clean: SetupEvent,
)
    requires
        s.phase == SetupPhase::Identity,
        s.clean == 0,
        s.rounds > 1,
        succeeded(ok, any),
        succeeded(clean, blank),
        text_laws::blank(blank),
    ensures
        ({
            let l = s.layout;
            let (s1, stub) = fixture::followed(s, SetupEvent::Done);
            let (s2, added) = fixture::followed(s1, SetupEvent::Done);
            let (s3, current) = fixture::followed(s2, ok);
            let (s4, configured) = fixture::followed(s3, SetupEvent::Done);
            let (s5, looked) = fixture::followed(s4, ok);
            let (s6, staged) = fixture::followed(s5, clean);
            let (s7, committed) = fixture::followed(s6, ok);
            let (s8, looked_again) = fixture::followed(s7, ok);
            let (s9, end) = fixture::followed(s8, clean);
            &&& stub == Act::MakeFolder {
                path: paths::joined(l.nb_dir, ".init_stub"@, l.separator),
            }
            &&& added == Act::RunNb { args: seq!["notebooks"@, "add"@, l.notebook] }
            &&& current == Act::WriteFile {
                path: paths::joined(l.nb_dir, ".current"@, l.separator),
                content: l.notebook,
            }
            &&& configured == Act::RunGit { args: seq!["config"@, "core.autocrlf"@, "false"@] }
            &&& looked == Act::RunGit {
                args: seq!["status"@, "--porcelain"@, "-uall"@, "--ignored=no"@],
            }
            &&& staged == Act::RunGit { args: seq!["add"@, "-A"@] }
            &&& committed == Act::RunGit { args: seq!["commit"@, "-m"@, "[nb] Initialize"@] }
            &&& looked_again == Act::RestAndCheck {
                args: seq!["status"@, "--porcelain"@, "-uall"@, "--ignored=no"@],
            }
            &&& end == Act::Ready
            &&& s9.phase == SetupPhase::Over
        }),
{
    let none = Seq::<char>::empty();
    text_laws::law_trimming_takes_white_space(blank, none, none);
    assert(blank + none + none =~= blank);
}

/// A notebook that is not clean is committed, and has to be clean twice from then on.
pub proof fn law_dirty_notebook_starts_over(
    s: SetupView,
    printed: Seq<char>,
    k: int,
    event: SetupEvent,
)
    requires
        s.phase == SetupPhase::Status,
        succeeded(event, printed),
        0 <= k < printed.len(),
        !text::whitespace(printed[k]),
    ensures
        ({
            let (next, act) = fixture::followed(s, event);
            &&& act == Act::RunGit { args: seq!["add"@, "-A"@] }
            &&& next.clean == 0
            &&& next.phase == SetupPhase::Staged
        }),
{
    crate::transaction::resolve_laws::lemma_visible(printed);
    assert(!text::whitespace(printed[k]));
}

/// A command that fails ends the set-up, and what it said is reported; only a commit that had
/// nothing to do goes on.
pub proof fn law_failed_command_ends_the_setup(s: SetupView, process: Finished, status: String)
    requires
        !process.success,
        s.phase == SetupPhase::Added || s.phase == SetupPhase::Configured || s.phase
            == SetupPhase::Status || s.phase == SetupPhase::Staged || (s.phase
            == SetupPhase::Committed && !fixture::nothing_to_commit(process)),
    ensures
        ({
            let (next, act) = fixture::followed(s, SetupEvent::Ran { process, status });
            &&& next.phase == SetupPhase::Over
            &&& act matches Act::Fail { error: TestError::Nb { context, failure } } && failure.status
                == status@ && failure.stdout == text::lossy_text(process.stdout@)
                && failure.stderr == text::lossy_text(process.stderr@)
        }),
{
}

/// Without Git, a notebook that was added is ready as it is; any other refusal of the system
/// ends the set-up with what the system said.
pub proof fn law_refusal_of_the_system(s: SetupView, missing: bool, message: String)
    ensures
        ({
            let (next, act) = fixture::followed(s, SetupEvent::Refused { missing, message });
            let git = s.phase == SetupPhase::Configured || s.phase == SetupPhase::Status || s.phase
                == SetupPhase::Staged || s.phase == SetupPhase::Committed;
            &&& next.phase == SetupPhase::Over
            &&& missing && git ==> act == Act::Ready
            &&& !(missing && git) ==> (act matches Act::Fail {
                error: TestError::Io { context, message: m },
            } && m == message@)
        }),
{
}

/// The message of a failure tells the exit status and both outputs; that of an error tells what
/// was being done.
pub proof fn law_failure_message_tells_all(f: Failed, context: Seq<char>, reason: Seq<char>)
    ensures
        ({
            let m = fixture::failure_message(f);
            &&& error_laws::tells(m, f.status)
            &&& f.stdout.len() > 0 ==> error_laws::tells(m, f.stdout)
            &&& f.stderr.len() > 0 ==> error_laws::tells(m, f.stderr)
            &&& error_laws::tells(
                fixture::error_message(TestError::Nb { context, failure: f }),
                context,
            )
            &&& error_laws::tells(fixture::error_message(TestError::Nb { context, failure: f }), m)
            &&& error_laws::tells(
                fixture::error_message(TestError::Io { context, message: reason }),
                context,
            )
            &&& error_laws::tells(
                fixture::error_message(TestError::Io { context, message: reason }),
                reason,
            )
        }),
{
    error_laws::lemma_tells();
}

/// The parts of a fixture lie where its layout says: nothing of it changes during the set-up.
pub proof fn law_layout_stays(s: SetupView, event: SetupEvent)
    ensures
        fixture::followed(s, event).0.layout == s.layout,
{
}

} // verus!
