use nb_api::argv::{
    child_folder_names, command_scope, empty_tasks_message, folders_command_args,
    import_command_args, is_empty_tasks_error, list_command_args, normalize_folder, normalize_tag,
    search_command_args, tasks_command_args, tasks_scope, FolderEntry, SearchMode, TaskStatus,
};
use nb_api::client::read::{
    check_queries, check_showable, numeric_selector_for_path, path_relative_to, probe_show_classification,
    resolve_item_path, search_note_lines, show_note, show_note_lines, ShowClassification,
};
use nb_api::client::write::{
    attempt_path, create_with_retry, list_tasks, listing_goes_on, note_target_for_selector,
    CreateStep, ScopeWalk, CREATE_ATTEMPTS,
};
use nb_api::client::{
    check_notebook, exec, nb_not_started, notebook_path, notebook_path_args, qualified, strip_ansi,
    Config, NbClient, NotebookStep, FOLDER_REQUIRED_MESSAGE,
};
use nb_api::diagnostics::{
    append_warning, is_notebook_not_found, is_selector_not_found, printable_form,
};
use nb_api::gate::{gate_timed_out, registry_len, GateRegistry};
use nb_api::git::{
    commit_args, derive_git_notebook_name, differs, force_add_args, git_captured, git_common_dir,
    git_not_started, git_rev_parse, list_ignored_paths, list_notebook_paths,
    notebook_head, notebook_reset_clean, notebook_status_porcelain, rev_parse_args,
    status_is_dirty, Finished,
};
use nb_api::output::strip_empty_result_hint;
use nb_api::paths::{join, Folder};
use nb_api::{DocumentKind, IoError, IoErrorKind, NbError, NoteTarget, TodoState};

fn strings(items: &[&str]) -> Vec<String> {
    items.iter().map(|s| s.to_string()).collect()
}

fn folder(path: &str) -> Folder {
    Folder { path: path.to_string(), separator: '/' }
}

fn failed(stderr: &str) -> NbError {
    NbError::CommandFailed {
        command: "nb x".to_string(),
        stderr: stderr.to_string(),
        exit_code: Some(1),
    }
}

fn invalid(reason: &str) -> NbError {
    NbError::ValidationError { reason: reason.to_string(), location: None }
}

fn client(notebook: Option<&str>, create: bool, top_level: bool) -> NbClient {
    let config = Config {
        notebook: notebook.map(|s| s.to_string()),
        create_notebook: create,
        allow_top_level_notes: top_level,
        ..Config::default()
    };
    NbClient::new(&config, None)
}

#[test]
fn task_arguments() {
    assert_eq!(tasks_scope("nb", Some("a/b")), "nb:a/b/");
    assert_eq!(tasks_scope("nb", Some("")), "nb:");
    assert_eq!(tasks_scope("nb", None), "nb:");
    assert_eq!(command_scope("nb", Some("f")), "nb:f/");
    assert_eq!(
        tasks_command_args("nb:", Some(TaskStatus::Closed)),
        strings(&["tasks", "nb:", "closed", "--no-color"])
    );
    assert_eq!(tasks_command_args("nb:", None), strings(&["tasks", "nb:", "--no-color"]));
    assert_eq!(empty_tasks_message(Some(TaskStatus::Open)), "! 0 open tasks.");
    assert_eq!(empty_tasks_message(None), "! 0 tasks.");
    assert!(is_empty_tasks_error("  ! 0 open tasks."));
    assert!(!is_empty_tasks_error("! 1 open tasks."));
    assert!(!is_empty_tasks_error("! 0 items."));
}

#[test]
fn search_and_list_arguments() {
    assert_eq!(normalize_tag("x"), "#x");
    assert_eq!(normalize_tag("#x"), "#x");
    assert_eq!(normalize_folder("//a/b/"), "a/b");
    assert_eq!(
        search_command_args("nb:", &strings(&["a", "b"]), SearchMode::Any, &strings(&["t"])),
        strings(&["search", "nb:", "a", "--or", "b", "--tag", "#t", "--no-color"])
    );
    assert_eq!(
        search_command_args("nb:", &strings(&["a", "b"]), SearchMode::All, &[]),
        strings(&["search", "nb:", "a", "b", "--no-color"])
    );
    assert_eq!(
        list_command_args("nb:f/", Some(20), &strings(&["#t", "u"])),
        strings(&["list", "nb:f/", "--no-color", "-n", "20", "--tags", "#t", "--tags", "#u"])
    );
    assert_eq!(
        folders_command_args("nb:"),
        strings(&["list", "nb:", "--type", "folder", "--no-color"])
    );
    assert_eq!(
        import_command_args("nb", "http://x", true, Some("f"), Some("n.md")),
        strings(&["nb:import", "http://x", "--convert", "f/n.md"])
    );
    assert_eq!(
        import_command_args("nb", "x", false, None, None),
        strings(&["nb:import", "x"])
    );
    assert_eq!(
        import_command_args("nb", "x", false, Some("f"), None),
        strings(&["nb:import", "x", "f/"])
    );
}

#[test]
fn hidden_entries_and_files_are_no_folders() {
    let entry = |name: &str, is_folder: bool| FolderEntry { name: name.to_string(), is_folder };
    assert_eq!(
        child_folder_names(&vec![
            entry("b", true),
            entry(".git", true),
            entry("a", true),
            entry("note.md", false),
        ]),
        strings(&["a", "b"])
    );
}

#[test]
fn hint_blocks_are_cut() {
    let block = "0 items.\n\nAdd a note:\n  nb add scratch:\n";
    assert_eq!(strip_empty_result_hint(block), "0 items.\n");
    assert_eq!(
        strip_empty_result_hint("0 folders.\r\n\r\nImport a file:\r\n"),
        "0 folders.\r\n"
    );
    for same in [
        "0 items.",
        "0 items.\nAdd a note:\n",
        "0 items.\n\nsomething else\n",
        "1 item.\n\nAdd a note:\n",
        "0 items\n\nAdd a note:\n",
        "",
    ] {
        assert_eq!(strip_empty_result_hint(same), same);
    }
}

#[test]
fn diagnostics_have_to_match_exactly() {
    assert!(is_selector_not_found("!\u{1b}[0m\u{f} Not found: nb:1\n", "nb:1"));
    assert!(is_notebook_not_found("! Notebook not found: scratch\r\n", "scratch"));
    for stderr in [
        "Permission denied: file not found: /etc/x",
        "! Notebook not found: scratch",
        "! error: not found during expansion",
        "! Not found: nb:12",
        "! Not found: nb:1\nmore",
    ] {
        assert!(!is_selector_not_found(stderr, "nb:1"), "{stderr}");
    }
    assert_eq!(printable_form("a\u{1b}[31;1mb\u{1b}Mc\u{f}\td\n\u{1b}"), "abc\td\n");
    assert_eq!(append_warning("x".to_string(), "W".to_string()), "x\n\nW");
    assert_eq!(append_warning("x\n".to_string(), "W".to_string()), "x\n\nW");
    assert_eq!(append_warning(" \n".to_string(), "W".to_string()), " \nW");
}

#[test]
fn escape_sequences_are_stripped() {
    assert_eq!(strip_ansi("\u{1b}[31mred\u{1b}[0m and \u{1b}(Bplain"), "red and plain");
    assert_eq!(strip_ansi("nothing here"), "nothing here");
}

#[test]
fn command_results() {
    let run = |success: bool, out: &str, err: &str| Finished {
        success,
        code: Some(if success { 0 } else { 3 }),
        stdout: out.as_bytes().to_vec(),
        stderr: err.as_bytes().to_vec(),
    };
    let args = strings(&["show", "x"]);
    assert_eq!(exec(&args, &run(true, "\u{1b}[1mhi\u{1b}[0m", "")), Ok("hi".to_string()));
    assert_eq!(
        exec(&args, &run(false, "out", "\u{1b}[1merr")),
        Err(NbError::CommandFailed {
            command: "nb show x".to_string(),
            stderr: "err".to_string(),
            exit_code: Some(3),
        })
    );
    assert_eq!(
        exec(&args, &run(false, "out", "")),
        Err(NbError::CommandFailed {
            command: "nb show x".to_string(),
            stderr: "out".to_string(),
            exit_code: Some(3),
        })
    );
    assert_eq!(
        git_captured(&args, &run(false, "", "bad")),
        Err(NbError::CommandFailed {
            command: "git show x".to_string(),
            stderr: "bad".to_string(),
            exit_code: Some(3),
        })
    );
    let lossy = Finished { success: true, code: Some(0), stdout: vec![0x41, 0xff], stderr: vec![] };
    assert_eq!(git_captured(&args, &lossy), Ok("A\u{fffd}".to_string()));
    let io = || IoError {
        kind: IoErrorKind::PermissionDenied,
        message: "no".to_string(),
        os_error: None,
        source: None,
    };
    assert_eq!(
        nb_not_started(true, io()),
        NbError::ExecutableNotFound { path: "nb".to_string() }
    );
    assert_eq!(
        nb_not_started(false, io()),
        NbError::Io { path: "nb".to_string(), source: io() }
    );
    assert_eq!(
        git_not_started(false, "/r", io()),
        NbError::Io { path: "/r".to_string(), source: io() }
    );
    assert_eq!(
        git_not_started(true, "/r", io()),
        NbError::ExecutableNotFound { path: "git".to_string() }
    );
}

#[test]
fn notebook_is_resolved_in_order() {
    let c = client(Some("mine"), true, false);
    assert_eq!(c.resolve_notebook_name(Some("other")), Ok("other".to_string()));
    assert_eq!(c.resolve_notebook_name(None), Ok("mine".to_string()));
    let derived = NbClient::new(&Config::default(), Some("repo".to_string()));
    assert_eq!(derived.resolve_notebook_name(None), Ok("repo".to_string()));
    assert_eq!(derived.gate_timeout(), 60_000);
    assert!(!derived.signing_disabled());
    let none = client(None, true, false);
    assert_eq!(
        none.resolve_notebook_name(None),
        Err(invalid("notebook not configured; set --notebook or NB_MCP_NOTEBOOK"))
    );
}

#[test]
fn new_notes_need_a_folder_unless_allowed() {
    assert_eq!(
        client(None, true, false).require_folder_for_new_note(Some(" ")),
        Err(invalid(FOLDER_REQUIRED_MESSAGE))
    );
    assert_eq!(client(None, true, false).require_folder_for_new_note(Some("f")), Ok(()));
    assert_eq!(client(None, true, true).require_folder_for_new_note(None), Ok(()));
}

#[test]
fn selectors_and_warnings_name_the_notebook() {
    let c = client(Some("mine"), true, false);
    let t = c.resolve_target_selector("3", None, None).unwrap();
    assert_eq!((t.notebook.as_str(), t.selector.as_str(), t.must_exist), ("mine", "mine:3", false));
    let pair = || Some(("other".to_string(), "a/b".to_string()));
    let t = c.resolve_target_selector("other:a/b", pair(), Some("other")).unwrap();
    assert_eq!((t.selector.as_str(), t.must_exist), ("other:a/b", true));
    assert_eq!(
        c.resolve_target_selector("other:a/b", pair(), Some("mine")).err(),
        Some(invalid(
            "ambiguous selector: id targets notebook `other`, but notebook field is `mine`"
        ))
    );
    assert_eq!(c.append_notebook_warning("done".to_string(), "mine"), "done");
    assert_eq!(
        c.append_notebook_warning("done".to_string(), "other"),
        "done\n\nWarning: wrote to notebook `other`, not the project default notebook `mine`. If this was unintended, move or delete the note and retry with the correct notebook/folder."
    );
}

#[test]
fn missing_notebooks_are_created_only_on_the_exact_diagnostic() {
    assert_eq!(notebook_path_args("n"), strings(&["notebooks", "show", "n", "--path"]));
    assert_eq!(notebook_path("n", " /x/n\n"), Ok("/x/n".to_string()));
    assert_eq!(
        check_notebook("n", Ok("\n".to_string())),
        Err(NbError::CommandFailed {
            command: "nb notebooks show n --path".to_string(),
            stderr: "nb notebooks path output was empty".to_string(),
            exit_code: None,
        })
    );
    let missing = check_notebook("n", Err(failed("! Notebook not found: n")));
    assert_eq!(missing, Err(NbError::NotFound { selector: "n:".to_string() }));
    assert_eq!(
        check_notebook("n", Err(failed("! Notebook not found: m"))),
        Err(failed("! Notebook not found: m"))
    );
    match client(None, true, false).ensure_notebook("n", missing.clone()) {
        Ok(NotebookStep::Create { args }) => assert_eq!(args, strings(&["notebooks", "add", "n"])),
        other => panic!("unexpected {other:?}"),
    }
    assert_eq!(
        client(None, false, false).ensure_notebook("n", missing).err(),
        Some(invalid(
            "notebook not found; create it with the nb CLI (`nb notebooks add n`) or remove --no-create-notebook"
        ))
    );
    assert_eq!(
        client(None, true, false).ensure_notebook("n", Err(failed("crash"))).err(),
        Some(failed("crash"))
    );
}

#[test]
fn item_paths_and_relative_paths() {
    assert_eq!(resolve_item_path("n:1", Ok("/n/a.md\n".to_string())), Ok("/n/a.md".to_string()));
    assert_eq!(
        resolve_item_path("n:1", Err(failed("! Not found: n:1"))),
        Err(NbError::NotFound { selector: "n:1".to_string() })
    );
    assert_eq!(
        resolve_item_path("n:1", Ok("".to_string())),
        Err(NbError::CommandFailed {
            command: "nb show n:1 --path".to_string(),
            stderr: "empty path".to_string(),
            exit_code: None,
        })
    );
    assert_eq!(path_relative_to(&folder("/n"), "/n/f/a.md"), Ok("f/a.md".to_string()));
    assert_eq!(path_relative_to(&folder("/n"), "/n"), Ok(String::new()));
    assert_eq!(path_relative_to(&folder("/"), "/a.md"), Ok("a.md".to_string()));
    let drive = Folder { path: "C:\\n".to_string(), separator: '\\' };
    assert_eq!(path_relative_to(&drive, "C:\\n\\f\\a.md"), Ok("f/a.md".to_string()));
    assert_eq!(
        path_relative_to(&folder("/n"), "/nn/a"),
        Err(invalid("path /nn/a is not under notebook root /n"))
    );
    assert_eq!(numeric_selector_for_path("n", "f/a.md", Some(3), "x"), "n:f/3");
    assert_eq!(numeric_selector_for_path("n", "a.md", Some(3), "x"), "n:3");
    assert_eq!(numeric_selector_for_path("n", "a.md", None, "x"), "x");
}

#[test]
fn only_text_is_shown() {
    assert_eq!(probe_show_classification(true, None), ShowClassification::Textual);
    assert_eq!(
        probe_show_classification(false, Some(" folder\n".to_string())),
        ShowClassification::NonTextual { actual_type: "folder".to_string() }
    );
    assert_eq!(probe_show_classification(false, None), ShowClassification::ProbeFailure);
    assert_eq!(
        check_showable("n:1", ShowClassification::NonTextual { actual_type: "png".to_string() }),
        Err(NbError::UnsupportedShowTarget {
            selector: "n:1".to_string(),
            actual_type: "png".to_string(),
        })
    );
    assert_eq!(check_showable("n:1", ShowClassification::ProbeFailure), Ok(()));
}

#[test]
fn notes_are_shown_with_ids_and_lines() {
    let source = b"# Title\n\n#one #two\n\nfirst\nsecond\nthird\n";
    let index = || Some(b"other.md\na.md\n".to_vec());
    let n = show_note("nb", "nb:a", "f/a.md", source, index()).unwrap();
    assert_eq!(n.selector, "nb:f/2");
    assert_eq!(n.numeric_id, Some(2));
    assert_eq!(n.kind, DocumentKind::Note);
    assert_eq!(n.todo_state, None);
    assert_eq!(n.title.as_deref(), Some("# Title\n"));
    assert_eq!(n.title_text.as_deref(), Some("Title"));
    assert_eq!(n.tags, strings(&["one", "two"]));
    assert_eq!(n.source.as_bytes(), source);
    assert!(n.body_contiguous);
    assert_eq!(n.body, "first\nsecond\nthird\n");
    assert_eq!(n.body_fragments.len(), 1);
    assert_eq!(n.body_fragments[0].bytes, n.body);
    let w = show_note_lines(n, Some(2), Some(1)).unwrap();
    assert_eq!(w.total_lines, 3);
    assert_eq!(w.next_offset, Some(3));
    assert_eq!(w.lines.len(), 1);
    assert_eq!(w.lines[0].text, "second");
    assert_eq!(w.lines[0].number, 2);
    assert!(w.has_final_eol);
    let n = show_note("nb", "nb:a", "a.md", source, None).unwrap();
    assert_eq!(n.selector, "nb:a");
    let all = show_note_lines(n, None, None).unwrap();
    assert_eq!((all.offset, all.limit, all.next_offset), (1, 100, None));
    let n = show_note("nb", "nb:a", "a.md", source, None).unwrap();
    assert_eq!(
        show_note_lines(n, Some(5), None).err(),
        Some(NbError::InvalidLineWindow { offset: 5, limit: 100, total_lines: 3 })
    );
    let n = show_note("nb", "nb:a", "a.md", source, None).unwrap();
    assert_eq!(show_note_lines(n, Some(4), None).unwrap().lines.len(), 0);
    let n = show_note("nb", "nb:a", "a.md", source, None).unwrap();
    let found = search_note_lines(n, "ir").unwrap();
    assert_eq!(found.hits.len(), 2);
    assert_eq!((found.hits[0].number, found.hits[0].start_byte, found.hits[0].end_byte), (1, 1, 3));
    let n = show_note("nb", "nb:a", "a.md", source, None).unwrap();
    assert_eq!(search_note_lines(n, "").err(), Some(NbError::EmptySubstringPattern));
}

#[test]
fn other_bytes_are_not_shown_as_text() {
    assert_eq!(
        show_note("nb", "nb:a", "a.todo.md", b"# [x] T\xff\n", None).err(),
        Some(NbError::NonUtf8 {
            selector: "nb:a".to_string(),
            path: "a.todo.md".to_string(),
            kind: "todo".to_string(),
            mime_hint: None,
        })
    );
    let odd = show_note("nb", "nb:a", "a.org", b"# T\n\nbody\n", None).unwrap();
    assert_eq!(odd.kind, DocumentKind::Note);
    let todo = show_note("nb", "nb:a", "a.todo.md", b"# [x] T\n", None).unwrap();
    assert_eq!(todo.todo_state, Some(TodoState::Done));
}

#[test]
fn taken_names_are_numbered() {
    assert_eq!(attempt_path(Some("f"), "a.todo.md", 0), "f/a.todo.md");
    assert_eq!(attempt_path(Some("f"), "a.todo.md", 12), "f/a-12.todo.md");
    assert_eq!(attempt_path(None, "a.md", 1), "a-1.md");
    let taken = || NbError::PathCollision { path: "f/a.md".to_string(), plan_index: Some(0) };
    match create_with_retry(Some("f"), "a.md", 0, taken()) {
        CreateStep::Retry { attempt } => assert_eq!(attempt, 1),
        other => panic!("unexpected {other:?}"),
    }
    match create_with_retry(Some("f"), "a.md", CREATE_ATTEMPTS - 1, taken()) {
        CreateStep::Fail { error } => assert_eq!(
            error,
            NbError::PathCollision { path: "f/a.md".to_string(), plan_index: None }
        ),
        other => panic!("unexpected {other:?}"),
    }
    match create_with_retry(None, "a.md", 0, failed("x")) {
        CreateStep::Fail { error } => assert_eq!(error, failed("x")),
        other => panic!("unexpected {other:?}"),
    }
    assert_eq!(
        note_target_for_selector("nb:a.md", true, None),
        Some(NoteTarget::Path { value: "a.md".to_string() })
    );
    assert_eq!(
        note_target_for_selector("nb:3", false, Some("f/b.md")),
        Some(NoteTarget::Path { value: "f/b.md".to_string() })
    );
}

#[test]
fn tasks_of_all_scopes_are_joined() {
    let none = || Err(failed("! 0 open tasks."));
    assert_eq!(
        list_tasks(vec![Ok(" a \n".to_string()), none(), Ok("b".to_string())], None),
        Ok("a\nb".to_string())
    );
    assert_eq!(
        list_tasks(vec![none()], Some(TaskStatus::Open)),
        Err(invalid("! 0 open tasks."))
    );
    assert_eq!(list_tasks(vec![Ok(" ".to_string())], None), Ok(String::new()));
    assert!(listing_goes_on(&Ok(String::new())));
    assert!(listing_goes_on(&none()));
    assert!(!listing_goes_on(&Err(failed("a"))));
    assert!(!listing_goes_on(&Err(invalid("! 0 open tasks."))));
    assert_eq!(
        list_tasks(vec![none(), Err(failed("a")), Err(failed("b"))], None),
        Err(failed("a"))
    );
}

#[test]
fn folders_are_walked_level_by_level() {
    let w = ScopeWalk::start("nb", None);
    assert_eq!(w.next_folder(), Some(""));
    let w = w.found(&strings(&["a", "b"]));
    assert_eq!(w.next_folder(), Some("a"));
    let w = w.found(&strings(&["c"]));
    assert_eq!(w.next_folder(), Some("b"));
    let w = w.found(&vec![]);
    assert_eq!(w.next_folder(), Some("a/c"));
    let w = w.found(&vec![]);
    assert_eq!(w.next_folder(), None);
    assert_eq!(w.scopes(), strings(&["nb:", "nb:a/", "nb:b/", "nb:a/c/"]));
}

#[test]
fn git_results_are_read() {
    assert_eq!(git_rev_parse(Ok(" /x/.git\n".to_string())), Some("/x/.git".to_string()));
    assert_eq!(git_rev_parse(Ok("\n".to_string())), None);
    assert_eq!(git_rev_parse(Err(failed("x"))), None);
    assert_eq!(rev_parse_args(&strings(&["--git-common-dir"])), strings(&["rev-parse", "--git-common-dir"]));
    let name = |s: &str| Some(s.to_string());
    assert_eq!(derive_git_notebook_name(name(".git"), name("proj")), name("proj"));
    assert_eq!(derive_git_notebook_name(name("bare"), name("me")), None);
    assert_eq!(derive_git_notebook_name(name(".git"), None), None);
    assert_eq!(derive_git_notebook_name(None, None), None);
    let n = folder("/n");
    assert_eq!(git_common_dir(&n, name(".git"), false), Ok("/n/.git".to_string()));
    assert_eq!(git_common_dir(&n, name("/c/.git"), true), Ok("/c/.git".to_string()));
    let drive = Folder { path: "C:\\n".to_string(), separator: '\\' };
    assert_eq!(git_common_dir(&drive, name(".git"), false), Ok("C:\\n\\.git".to_string()));
    assert_eq!(git_common_dir(&drive, name("D:/c/.git"), true), Ok("D:/c/.git".to_string()));
    assert_eq!(
        git_common_dir(&n, None, false),
        Err(invalid("notebook path /n is not an initialized git repository"))
    );
    assert_eq!(join("/", "a", '/'), "/a");
    assert_eq!(join("C:/n", "a", '\\'), "C:/n\\a");
    assert_eq!(notebook_head(Ok("abc\n".to_string())), Ok("abc".to_string()));
    assert_eq!(
        notebook_head(Ok("".to_string())),
        Err(NbError::CommandFailed {
            command: "git rev-parse HEAD".to_string(),
            stderr: "empty HEAD".to_string(),
            exit_code: None,
        })
    );
    assert_eq!(
        notebook_status_porcelain(Ok(" M a\n".to_string())),
        Ok("M a".to_string())
    );
    assert!(status_is_dirty("?? x\n"));
    assert!(!status_is_dirty("\n"));
    assert_eq!(differs("c", Some(1), ""), Ok(true));
    assert_eq!(differs("c", Some(0), ""), Ok(false));
    assert_eq!(
        differs("git diff --cached --quiet", Some(128), "exit status: 128"),
        Err(NbError::CommandFailed {
            command: "git diff --cached --quiet".to_string(),
            stderr: "unexpected exit exit status: 128".to_string(),
            exit_code: Some(128),
        })
    );
    assert_eq!(
        notebook_reset_clean("abc"),
        vec![strings(&["reset", "--hard", "abc"]), strings(&["clean", "-fd"])]
    );
    assert_eq!(commit_args("m"), strings(&["commit", "-m", "m", "--no-gpg-sign"]));
    assert_eq!(force_add_args("p"), strings(&["add", "-f", "--", "p"]));
}

#[test]
fn notebook_listing_shows_each_path_once() {
    assert_eq!(list_ignored_paths("a\0b/c\0\0"), strings(&["a", "b/c"]));
    assert_eq!(
        list_notebook_paths(
            "a.md\0f/b.md\0",
            "a.md\0c.md\0",
            &strings(&["f", "empty", "empty/inner"])
        ),
        strings(&["a.md", "f/b.md", "c.md", "empty", "empty/inner"])
    );
}

#[test]
fn one_gate_for_each_repository() {
    let mut r = GateRegistry::new();
    assert_eq!(registry_len(&r), 0);
    let a = r.gate_for("/a/.git");
    let b = r.gate_for("/b/.git");
    assert_ne!(a, b);
    assert_eq!(r.gate_for("/a/.git"), a);
    assert_eq!(registry_len(&r), 2);
    assert_eq!(
        gate_timed_out("notebook", 60_000),
        NbError::GateTimeout { gate: "notebook".to_string(), timeout_ms: 60_000 }
    );
}

#[test]
fn new_notes_and_searches_are_checked() {
    let strict = client(Some("nb"), false, false);
    assert_eq!(
        strict.check_new_note(Some("T"), "\n# T\nbody", None),
        Err(NbError::DuplicateTitleHeading { title: "T".to_string(), heading: "# T".to_string() })
    );
    assert_eq!(strict.check_new_note(Some("T"), "body", Some(" ")), Err(invalid(FOLDER_REQUIRED_MESSAGE)));
    assert_eq!(strict.check_new_note(Some("T"), "# Other", Some("f")), Ok(()));
    assert_eq!(strict.check_new_note(None, "# T", Some("f")), Ok(()));
    assert_eq!(client(Some("nb"), false, true).check_new_note(Some("T"), "body", None), Ok(()));
    assert_eq!(check_queries(&[]), Err(invalid("at least one search query is required")));
    assert_eq!(check_queries(&strings(&["a"])), Ok(()));
}

#[test]
fn ids_are_split_at_the_first_colon() {
    let pair = |a: &str, b: &str| Some((a.to_string(), b.to_string()));
    assert_eq!(qualified("home:12"), pair("home", "12"));
    assert_eq!(qualified("home:a:b"), pair("home", "a:b"));
    assert_eq!(qualified(":"), pair("", ""));
    assert_eq!(qualified("docs/12"), None);
    let t = client(None, true, true).resolve_target_selector("n:3", qualified("n:3"), None);
    assert!(t.is_ok());
}
