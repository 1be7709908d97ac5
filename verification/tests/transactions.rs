use nb_api::fingerprint::Fingerprint;
use nb_api::parser::parse_as;
use nb_api::paths::Folder;
use nb_api::transaction::apply::{
    validate_and_apply_virtual, PathProbe, PlanEffects, PlanState, Surroundings,
};
use nb_api::transaction::commit::{begin, check_baseline, Begun, Failure, PlanRun};
use nb_api::transaction::content::{
    apply_tag_edit, build_bookmark_bytes, build_note_bytes, build_todo_bytes, set_todo_state,
};
use nb_api::transaction::index::{
    append_lines, group_index_edits, index_id, is_append_only, merge_index_lines,
    parse_index_lines, place_edits, plan_index_rewrite, render_index_lines, stale_range,
    IndexPlacement, PendingIndexEdit, PendingIndexKind, RewriteStep,
};
use nb_api::transaction::lock::{
    first_look, heartbeat_nanos, index_lock_path, owns_lock, second_look, wait_for_lock, LockLook,
    LockWait,
};
use nb_api::transaction::materialize::{
    decide_folder, decide_removal, decide_write, disk_plan, Found, Look,
};
use nb_api::transaction::names::{
    filename_for_title, mangle_stem, suffixed_filename, titleless_stem, validate_create_path,
};
use nb_api::transaction::plan::{PlanOp, Transaction};
use nb_api::transaction::resolve::{resolve_move_destination, resolve_target_path};
use nb_api::transaction::restore::{
    decide_cleanup, left_behind, next_stage, prunable_parents, restore_verdict, Cleanup,
    RestoreFindings, RestoreStage,
};
use nb_api::transaction::rewrite::{FileAction, FileAnswer, Rewrite, REWRITE_ROUNDS};
use nb_api::transaction::tree::{DiskEntry, DiskKind, LinkState, VirtualTree};
use nb_api::{DocumentKind, IoError, IoErrorKind, NbError, NoteTarget, Occurrence, TodoState};

fn strings(items: &[&str]) -> Vec<String> {
    items.iter().map(|s| s.to_string()).collect()
}

fn invalid(reason: &str) -> NbError {
    NbError::ValidationError { reason: reason.to_string(), location: None }
}

fn at(path: &str) -> NoteTarget {
    NoteTarget::Path { value: path.to_string() }
}

fn selector(value: &str) -> NoteTarget {
    NoteTarget::Selector { value: value.to_string() }
}

fn io_error() -> IoError {
    IoError {
        kind: IoErrorKind::PermissionDenied,
        message: "denied".to_string(),
        os_error: Some(13),
        source: None,
    }
}

fn tree(files: &[(&str, &str)]) -> VirtualTree {
    let mut t = VirtualTree::new();
    for (path, content) in files {
        t.insert_file(path, content.as_bytes().to_vec());
    }
    t
}

fn state(files: &[(&str, &str)]) -> PlanState {
    PlanState { tree: tree(files), effects: PlanEffects::new() }
}

fn folder(path: &str) -> Folder {
    Folder { path: path.to_string(), separator: '/' }
}

fn surroundings(ignored: &[&str]) -> Surroundings {
    Surroundings {
        notebook: "nb".to_string(),
        root: folder("/nb"),
        ignored: strings(ignored),
    }
}

fn planned(build: impl Fn(&mut Transaction) -> Result<(), NbError>) -> Transaction {
    let mut t = Transaction::new("nb", 1000);
    build(&mut t).unwrap();
    t
}

fn run(
    s: &mut PlanState,
    ignored: &[&str],
    build: impl Fn(&mut Transaction) -> Result<(), NbError>,
) -> Result<(Option<String>, Option<String>, bool, Vec<PendingIndexEdit>), NbError> {
    let t = planned(build);
    validate_and_apply_virtual(&surroundings(ignored), s, &vec![], t.op(0))
        .map(|m| (m.path, m.selector, m.noop, m.index_edits))
}

fn file(s: &PlanState, path: &str) -> Option<String> {
    s.tree.get_file(path).map(|b| String::from_utf8(b.clone()).unwrap())
}

#[test]
fn names_follow_titles() {
    assert_eq!(mangle_stem("Hello, World!"), "hello_world");
    assert_eq!(filename_for_title(Some("My Note"), "md", "x"), "my_note.md");
    assert_eq!(filename_for_title(None, "todo.md", "20240101"), "20240101.todo.md");
    assert_eq!(suffixed_filename("a.todo.md", 3), "a-3.todo.md");
    assert_ne!(suffixed_filename("a.md", 1), suffixed_filename("a.md", 11));
    assert!(titleless_stem(Some("20240101120000".to_string()), 0, 1).starts_with("20240101120000"));
}

#[test]
fn new_paths_are_checked() {
    assert_eq!(validate_create_path(" docs/a.md ", true), Ok("docs/a.md".to_string()));
    for (path, reason) in [
        ("", "path must not be empty"),
        ("/a.md", "path must be notebook-relative (absolute paths refused)"),
        ("a\\b.md", "path must not contain backslash separators"),
        ("a\0.md", "path must not contain NUL"),
        ("a/../b.md", "path must not contain empty, `.`, or `..` segments"),
        ("a//b.md", "path must not contain empty, `.`, or `..` segments"),
    ] {
        assert_eq!(validate_create_path(path, true), Err(invalid(reason)), "{path:?}");
    }
}

#[test]
fn plans_collect_and_refuse() {
    let mut t = Transaction::new("nb", 1000);
    assert_eq!(
        t.add_note("a.md", Some("Title"), "# Title\n\nx", &[]),
        Err(NbError::DuplicateTitleHeading {
            title: "Title".to_string(),
            heading: "# Title".to_string(),
        })
    );
    assert_eq!(
        t.add_todo("a.todo.md", " ", None, &[], &[]),
        Err(invalid("todo title must not be empty"))
    );
    assert_eq!(
        t.add_bookmark("a.bookmark.md", "", None, &[], None),
        Err(invalid("bookmark url must not be empty"))
    );
    assert_eq!(t.delete_note(at(" ")), Err(invalid("note target must not be empty")));
    assert_eq!(t.move_note(at("a.md"), "/"), Err(invalid("invalid move destination")));
    assert_eq!(t.move_note(at("a.md"), "x/../y"), Err(invalid("invalid move destination")));
    assert_eq!(
        t.edit_note_substring(at("a.md"), "", "x", Occurrence::All, 1, None),
        Err(NbError::EmptySubstringPattern)
    );
    assert_eq!(
        t.edit_note_lines(at("a.md"), vec![]),
        Err(invalid("edit_note_lines requires a non-empty edits batch"))
    );
    assert_eq!(
        t.edit_note_tags(at("a.md"), &strings(&["x", "#y"]), &strings(&["y"])),
        Err(invalid("contradictory tag add/remove for `y`"))
    );
    assert_eq!(t.len(), 0);
    assert_eq!(t.move_note(at("a.md"), " docs/ "), Ok(()));
    assert_eq!(t.len(), 1);
    assert!(matches!(t.op(0), PlanOp::MoveNote { destination, .. } if destination == "docs/"));
    assert_eq!((t.notebook(), t.gate_timeout_ms()), ("nb", 1000));
}

#[test]
fn contents_are_built() {
    assert_eq!(
        build_note_bytes(Some("T"), "body", &strings(&["a", "#b"])),
        b"# T\n\n#a #b\n\nbody"
    );
    assert_eq!(
        build_todo_bytes("Do", Some("why"), &strings(&["one"]), &strings(&["t"])),
        b"# [ ] Do\n\n## Tasks\n\n- [ ] one\n\n## Description\n\nwhy\n\n## Tags\n\n#t\n"
    );
    assert_eq!(
        build_bookmark_bytes("http://x", Some("T"), &strings(&["t"]), Some("c\n")),
        b"# T\n\n<http://x>\n\n## Content\n\nc\n\n## Tags\n\n#t\n"
    );
}

#[test]
fn tasks_are_marked_and_opened_again() {
    let source = b"# [ ] T\n\n## Tasks\n\n- [ ] one\n- [ ] two\n";
    let done = set_todo_state(source, "a.todo.md", true, Some(2)).unwrap();
    assert_eq!(done, b"# [ ] T\n\n## Tasks\n\n- [ ] one\n- [x] two\n");
    assert_eq!(set_todo_state(&done, "a.todo.md", false, Some(2)).unwrap(), source);
    let title = set_todo_state(source, "a.todo.md", true, None).unwrap();
    assert_eq!(title, b"# [x] T\n\n## Tasks\n\n- [ ] one\n- [ ] two\n");
    assert_eq!(set_todo_state(&title, "a.todo.md", false, None).unwrap(), source);
    assert_eq!(
        set_todo_state(source, "a.todo.md", true, Some(3)),
        Err(invalid("task_number 3 not found"))
    );
    assert_eq!(
        set_todo_state(source, "a.md", true, None),
        Err(NbError::UnsupportedStructure {
            reason: "mark_task_done/unmark_task_done require a Todo document".to_string(),
        })
    );
}

#[test]
fn targets_are_resolved() {
    let t = tree(&[
        ("docs/alpha.md", "a"),
        ("docs/beta.md", "b"),
        ("beta.md", "b"),
        (".index", "x.md\n\nbeta.md\n"),
        ("docs/.index", "alpha.md\n"),
    ]);
    let none = vec![];
    let get = |target: NoteTarget| resolve_target_path(&t, &none, &target);
    assert_eq!(get(at("./docs/alpha.md")), Ok("docs/alpha.md".to_string()));
    assert_eq!(get(at("alpha.md")), Err(NbError::NotFound { selector: "alpha.md".to_string() }));
    assert_eq!(get(selector("nb:docs/1")), Ok("docs/alpha.md".to_string()));
    assert_eq!(get(selector("3")), Ok("beta.md".to_string()));
    assert_eq!(get(selector("nb:2")), Err(NbError::NotFound { selector: "2".to_string() }));
    assert_eq!(get(selector("0")), Err(NbError::NotFound { selector: "0".to_string() }));
    assert_eq!(get(selector("nb:alpha")), Ok("docs/alpha.md".to_string()));
    assert_eq!(
        get(selector("nb:beta")),
        Err(invalid("selector `nb:beta` is ambiguous across multiple paths"))
    );
    assert_eq!(get(selector("nb:gamma")), Err(NbError::NotFound { selector: "nb:gamma".to_string() }));
    let ignored = strings(&["secret/gamma"]);
    assert!(matches!(
        resolve_target_path(&t, &ignored, &selector("nb:gamma")),
        Err(NbError::PathIgnored { path, .. }) if path == "secret/gamma"
    ));
    assert!(matches!(
        resolve_target_path(&t, &ignored, &at("secret/gamma")),
        Err(NbError::PathIgnored { .. })
    ));
    assert_eq!(resolve_move_destination("a/x.md", "b/"), "b/x.md");
    assert_eq!(resolve_move_destination("a/x.md", "b"), "b");
}

#[test]
fn notes_are_created_once() {
    let mut s = state(&[]);
    let (path, sel, noop, edits) = run(&mut s, &[], |t| t.add_note("docs/a.md", Some("T"), "b", &[])).unwrap();
    assert_eq!(path.as_deref(), Some("docs/a.md"));
    assert_eq!(sel.as_deref(), Some("nb:docs/a.md"));
    assert!(!noop);
    assert_eq!(
        edits,
        vec![PendingIndexEdit {
            file_rel: "docs/.index".to_string(),
            kind: PendingIndexKind::Append { basename: "a.md".to_string() },
        }]
    );
    assert_eq!(file(&s, "docs/a.md").as_deref(), Some("# T\n\nb"));
    assert!(s.tree.contains("docs"));
    assert_eq!(s.effects.written, strings(&["docs/a.md"]));
    assert_eq!(s.effects.created, strings(&["docs/a.md"]));
    assert_eq!(
        run(&mut s, &[], |t| t.add_note("docs/a.md", None, "", &[])).err(),
        Some(NbError::PathCollision { path: "docs/a.md".to_string(), plan_index: None })
    );
    assert!(matches!(
        run(&mut s, &["x.md"], |t| t.add_note("x.md", None, "", &[])).err(),
        Some(NbError::PathIgnored { .. })
    ));
    assert_eq!(s.effects.written.len(), 1);
}

#[test]
fn creations_below_symlinks_are_refused() {
    let mut s = state(&[]);
    let t = planned(|t| t.add_note("link/a.md", None, "", &[]));
    let probe = |states: Vec<LinkState>| vec![PathProbe { path: "link/a.md".to_string(), states }];
    assert_eq!(
        validate_and_apply_virtual(&surroundings(&[]), &mut s, &probe(vec![LinkState::Symlink]), t.op(0)).err(),
        Some(NbError::UnsupportedStructure {
            reason: "refusing path through symlink `link`; transactions do not follow symlinks".to_string(),
        })
    );
    assert_eq!(
        validate_and_apply_virtual(
            &surroundings(&[]),
            &mut s,
            &probe(vec![LinkState::Present, LinkState::Failed { source: io_error() }]),
            t.op(0)
        )
        .err(),
        Some(NbError::Io { path: "/nb/link/a.md".to_string(), source: io_error() })
    );
    assert!(validate_and_apply_virtual(&surroundings(&[]), &mut s, &probe(vec![LinkState::Absent]), t.op(0)).is_ok());
}

#[test]
fn folders_get_a_keep_file() {
    let mut s = state(&[]);
    let (path, sel, _, edits) = run(&mut s, &[], |t| t.add_folder("a/b")).unwrap();
    assert_eq!((path.as_deref(), sel), (Some("a/b"), None));
    assert!(edits.is_empty());
    assert_eq!(file(&s, "a/b/.gitkeep").as_deref(), Some(""));
    assert_eq!(s.effects.mkdirs, strings(&["a/b"]));
    assert_eq!(s.effects.created, strings(&["a/b/.gitkeep"]));
}

#[test]
fn notes_are_deleted_and_moved() {
    let mut s = state(&[("docs/a.md", "x"), ("b.md", "y")]);
    let (_, sel, _, edits) = run(&mut s, &[], |t| t.delete_note(selector("b"))).unwrap();
    assert_eq!(sel.as_deref(), Some("nb:b"));
    assert!(matches!(&edits[0].kind, PendingIndexKind::Blank { basename } if basename == "b.md"));
    assert!(!s.tree.contains("b.md"));
    assert_eq!(s.effects.removed, strings(&["b.md"]));
    let (path, _, _, edits) = run(&mut s, &[], |t| t.move_note(at("docs/a.md"), "new/")).unwrap();
    assert_eq!(path.as_deref(), Some("new/a.md"));
    assert_eq!(edits.len(), 2);
    assert_eq!(edits[0].file_rel, "docs/.index");
    assert_eq!(edits[1].file_rel, "new/.index");
    assert!(matches!(
        run(&mut s, &[], |t| t.move_note(at("new/a.md"), "new/longer.md")).err(),
        Some(NbError::ValidationError { .. })
    ));
    let (_, _, _, edits) = run(&mut s, &[], |t| t.move_note(at("new/a.md"), "new/b.md")).unwrap();
    assert!(matches!(&edits[0].kind, PendingIndexKind::Rename { .. }));
    assert_eq!(file(&s, "new/b.md").as_deref(), Some("x"));
}

#[test]
fn bodies_are_edited_under_their_fingerprint() {
    let mut s = state(&[("a.md", "# T\n\nold old\n")]);
    let stale = || Fingerprint::parse_token(&format!("b3:{}", "0".repeat(64))).unwrap();
    assert!(matches!(
        run(&mut s, &[], |t| t.replace_note_body(at("a.md"), "new\n", stale())).err(),
        Some(NbError::FingerprintMismatch { .. })
    ));
    let current =
        || Fingerprint::parse_token(&format!("b3:{}", blake3::hash(b"old old\n").to_hex())).unwrap();
    run(&mut s, &[], |t| t.replace_note_body(at("a.md"), "new new\n", current())).unwrap();
    assert_eq!(file(&s, "a.md").as_deref(), Some("# T\n\nnew new\n"));
    assert_eq!(
        run(&mut s, &[], |t| t.edit_note_substring(at("a.md"), "new", "x", Occurrence::All, 1, None)).err(),
        Some(NbError::OccurrenceMismatch { expected: 1, actual: 2 })
    );
    let (_, _, noop, _) =
        run(&mut s, &[], |t| t.edit_note_substring(at("a.md"), "new", "new", Occurrence::All, 2, None)).unwrap();
    assert!(noop);
    run(&mut s, &[], |t| t.retitle_note(at("a.md"), "Other")).unwrap();
    assert_eq!(file(&s, "a.md").as_deref(), Some("# Other\n\nnew new\n"));
    run(&mut s, &[], |t| t.edit_note_tags(at("a.md"), &strings(&["one", "two"]), &[])).unwrap();
    assert_eq!(file(&s, "a.md").as_deref(), Some("# Other\n\n#one #two\n\n\nnew new\n"));
    assert_eq!(
        run(&mut s, &[], |t| t.retitle_note(at("none.md"), "x")).err(),
        Some(NbError::NotFound { selector: "none.md".to_string() })
    );
}

#[test]
fn index_lines_read_back() {
    for lines in [vec![], strings(&["a"]), strings(&["a", "", "b"]), strings(&["", ""])] {
        assert_eq!(parse_index_lines(&render_index_lines(&lines)), lines);
    }
    assert_eq!(parse_index_lines(b"a\nb"), strings(&["a", "b"]));
    assert_eq!(parse_index_lines(b"\xff\n"), strings(&["\u{fffd}"]));
    assert_eq!(index_id(Some(b"a\n\nb\n".to_vec()), "b"), Some(3));
    assert_eq!(index_id(Some(b"a\n".to_vec()), "c"), None);
    assert_eq!(index_id(None, "c"), None);
}

fn edit(file: &str, kind: PendingIndexKind) -> PendingIndexEdit {
    PendingIndexEdit { file_rel: file.to_string(), kind }
}

fn append(name: &str) -> PendingIndexKind {
    PendingIndexKind::Append { basename: name.to_string() }
}

fn blank(name: &str) -> PendingIndexKind {
    PendingIndexKind::Blank { basename: name.to_string() }
}

fn rename(from: &str, to: &str) -> PendingIndexKind {
    PendingIndexKind::Rename { old_basename: from.to_string(), new_basename: to.to_string() }
}

#[test]
fn index_edits_keep_other_ids() {
    let edits = vec![
        edit(".index", blank("b")),
        edit(".index", append("d")),
        edit(".index", rename("c", "x")),
        edit(".index", append("a")),
    ];
    assert_eq!(merge_index_lines(b"a\nb\nc\n", &edits), strings(&["a", "", "x", "d"]));
    match plan_index_rewrite(b"a\nbb\n", &vec![edit(".index", blank("bb"))], 5) {
        RewriteStep::Shrink { content } => assert_eq!(content, b"a\n\n"),
        other => panic!("unexpected {other:?}"),
    }
    match plan_index_rewrite(b"a\n", &vec![edit(".index", append("b"))], 2) {
        RewriteStep::Grow { content } => assert_eq!(content, b"a\nb\n"),
        other => panic!("unexpected {other:?}"),
    }
    assert!(matches!(
        plan_index_rewrite(b"a\n", &vec![edit(".index", blank("z"))], 2),
        RewriteStep::Done
    ));
    let r = stale_range(3, 0, 5, 5);
    assert_eq!((r.offset, r.len, r.expected), (3, 2, 3));
    let r = stale_range(3, 4, 5, 9);
    assert_eq!((r.offset, r.len, r.expected), (7, 2, 7));
}

#[test]
fn index_edits_are_grouped_and_placed() {
    let edits = vec![
        edit("f/.index", append("a")),
        edit(".index", blank("b")),
        edit("f/.index", append("c")),
    ];
    let groups = group_index_edits(&vec![0, 1, 2], &edits);
    assert_eq!(groups.len(), 2);
    assert_eq!((groups[0].file_rel.as_str(), groups[0].ops.clone()), ("f/.index", vec![0, 2]));
    assert!(is_append_only(&groups[0].edits));
    assert!(!is_append_only(&groups[1].edits));
    assert_eq!(append_lines(&groups[0].edits), "a\nc\n");
    assert_eq!(
        place_edits(&groups[0], b"x\na\nc\n"),
        vec![
            IndexPlacement { op_index: 0, folder: "f".to_string(), id: 2 },
            IndexPlacement { op_index: 2, folder: "f".to_string(), id: 3 },
        ]
    );
    assert_eq!(place_edits(&groups[1], b"x\n\n"), vec![]);
}

#[test]
fn rewrite_shortens_in_place() {
    let (r, a) = Rewrite::start(vec![edit(".index", blank("bb"))]);
    assert!(matches!(a, FileAction::Measure));
    let (r, a) = r.next(FileAnswer::Size(5));
    assert!(matches!(a, FileAction::ReadAll));
    let (r, a) = r.next(FileAnswer::Content(b"a\nbb\n".to_vec()));
    assert!(matches!(a, FileAction::Measure));
    let (r, a) = r.next(FileAnswer::Size(5));
    assert!(matches!(a, FileAction::WriteFront { content } if content == b"a\n\n"));
    let (r, a) = r.next(FileAnswer::Size(5));
    assert!(matches!(a, FileAction::Measure));
    let (r, a) = r.next(FileAnswer::Size(5));
    assert!(matches!(a, FileAction::Measure));
    let (r, a) = r.next(FileAnswer::Size(5));
    assert!(matches!(a, FileAction::ReadRange { from: 5, len: 0 }));
    let (r, a) = r.next(FileAnswer::Content(vec![]));
    assert!(matches!(a, FileAction::Measure));
    let (r, a) = r.next(FileAnswer::Size(5));
    match a {
        FileAction::MoveTail { at, tail, stale } => {
            assert_eq!((at, tail.len(), stale.offset, stale.len), (3, 0, 3, 2));
        }
        other => panic!("unexpected {other:?}"),
    }
    let (_, a) = r.next(FileAnswer::Size(3));
    assert!(matches!(a, FileAction::Done));
}

/// Perform an action on a file as the system would.
fn performed(file: &mut Vec<u8>, action: FileAction, removable: bool) -> FileAnswer {
    match action {
        FileAction::ReadAll => return FileAnswer::Content(file.clone()),
        FileAction::ReadRange { from, len } => {
            let from = from as usize;
            return FileAnswer::Content(file[from..from + len as usize].to_vec());
        }
        FileAction::WriteWhole { content } => *file = content,
        FileAction::WriteFront { content } => file[..content.len()].copy_from_slice(&content),
        FileAction::MoveTail { at, tail, stale } => {
            let at = at as usize;
            file[at..at + tail.len()].copy_from_slice(&tail);
            if removable {
                file.drain(stale.offset as usize..(stale.offset + stale.len) as usize);
            } else {
                file.truncate(stale.offset as usize);
            }
        }
        FileAction::Measure | FileAction::Done | FileAction::GiveUp => {}
    }
    FileAnswer::Size(file.len() as u64)
}

#[test]
fn appended_lines_survive_a_rewrite() {
    // Lines are appended before each pair of the steps in turn.
    for removable in [true, false] {
        for first in 0..14 {
            for second in first..14 {
                let mut file = b"aaaa\nb\n".to_vec();
                let mut expected = b"\nb\n".to_vec();
                let (mut rewrite, mut action) = Rewrite::start(vec![edit(".index", blank("aaaa"))]);
                let mut done = 0;
                loop {
                    let cutting = matches!(action, FileAction::MoveTail { .. });
                    for (step, line) in [(first, &b"c\n"[..]), (second, b"ddddddd\n")] {
                        if done == step && (removable || !cutting) {
                            file.extend_from_slice(line);
                            expected.extend_from_slice(line);
                        }
                    }
                    let answer = match action {
                        FileAction::Done => break,
                        FileAction::GiveUp => panic!("gave up"),
                        other => performed(&mut file, other, removable),
                    };
                    (rewrite, action) = rewrite.next(answer);
                    done += 1;
                }
                assert_eq!(file, expected, "steps {first} and {second}");
            }
        }
    }
}

#[test]
fn any_size_movement_starts_a_round() {
    let front = || {
        let (r, _) = Rewrite::start(vec![edit(".index", blank("bb"))]);
        let (r, _) = r.next(FileAnswer::Size(5));
        let (r, _) = r.next(FileAnswer::Content(b"a\nbb\n".to_vec()));
        let (r, a) = r.next(FileAnswer::Size(5));
        assert!(matches!(a, FileAction::WriteFront { .. }));
        r
    };
    let whole = || {
        let (r, _) = Rewrite::start(vec![edit(".index", append("bb"))]);
        let (r, _) = r.next(FileAnswer::Size(2));
        let (r, _) = r.next(FileAnswer::Content(b"a\n".to_vec()));
        let (r, a) = r.next(FileAnswer::Size(2));
        assert!(matches!(a, FileAction::WriteWhole { .. }));
        r
    };
    // A larger and a smaller file, once bytes are written.
    for n in [4, 7] {
        let (r, a) = front().next(FileAnswer::Size(n));
        assert!(matches!(a, FileAction::Measure));
        let (_, a) = r.next(FileAnswer::Size(n));
        assert!(matches!(a, FileAction::ReadAll));
    }
    for n in [4, 7] {
        let (r, a) = whole().next(FileAnswer::Size(n));
        assert!(matches!(a, FileAction::Measure));
        let (_, a) = r.next(FileAnswer::Size(n));
        assert!(matches!(a, FileAction::ReadAll));
    }
    let (_, a) = whole().next(FileAnswer::Size(5));
    assert!(matches!(a, FileAction::Done));
    // The stale bytes behind the front are not read as a line.
    let (r, _) = front().next(FileAnswer::Size(7));
    let (r, _) = r.next(FileAnswer::Size(7));
    let (r, _) = r.next(FileAnswer::Content(b"a\n\nb\nc\n".to_vec()));
    let (_, a) = r.next(FileAnswer::Size(7));
    assert!(matches!(a, FileAction::WriteFront { content } if content == b"a\n\nc\n"));
}

#[test]
fn rewrite_starts_again_and_gives_up() {
    let (mut r, _) = Rewrite::start(vec![edit(".index", blank("b"))]);
    for round in 0..REWRITE_ROUNDS {
        let (s, _) = r.next(FileAnswer::Size(2));
        let (s, _) = s.next(FileAnswer::Content(b"b\n".to_vec()));
        let (s, a) = s.next(FileAnswer::Size(9));
        r = s;
        if round + 1 < REWRITE_ROUNDS {
            assert!(matches!(a, FileAction::Measure));
        } else {
            assert!(matches!(a, FileAction::GiveUp));
        }
    }
}

#[test]
fn locks_of_the_dead_are_removed() {
    assert_eq!(index_lock_path(&folder("/nb")), "/nb/.nb-api-index.lock");
    assert_eq!(index_lock_path(&folder("/nb/")), "/nb/.nb-api-index.lock");
    assert_eq!(index_lock_path(&folder("")), ".nb-api-index.lock");
    let drive = Folder { path: "C:\\nb".to_string(), separator: '\\' };
    assert_eq!(index_lock_path(&drive), "C:\\nb\\.nb-api-index.lock");
    assert_eq!(heartbeat_nanos(60_000), 20_000_000_000);
    assert_eq!(heartbeat_nanos(1), 5_000_000);
    assert_eq!(heartbeat_nanos(u64::MAX), 30_000_000_000);
    assert!(owns_lock(Some("pid=1\n"), "pid=1"));
    assert!(!owns_lock(Some("pid=2\n"), "pid=1"));
    assert!(!owns_lock(None, "pid=1"));
    let held = Some("x".to_string());
    assert_eq!(first_look(&held, Some(false)), LockLook::Held);
    assert_eq!(first_look(&None, None), LockLook::Gone);
    assert_eq!(first_look(&held, Some(true)), LockLook::Old);
    assert_eq!(second_look(&held, &held, Some(true)), LockLook::Old);
    assert_eq!(second_look(&held, &held, None), LockLook::Old);
    assert_eq!(second_look(&held, &held, Some(false)), LockLook::Held);
    assert_eq!(second_look(&held, &Some("y".to_string()), Some(true)), LockLook::Held);
    assert_eq!(second_look(&None, &None, Some(true)), LockLook::Gone);
    assert_eq!(wait_for_lock(true, true, "l", 5), Ok(LockWait::TryNow));
    assert_eq!(wait_for_lock(false, false, "l", 5), Ok(LockWait::Sleep));
    assert_eq!(
        wait_for_lock(false, true, "l", 5),
        Err(NbError::IndexLockTimeout { path: "l".to_string(), timeout_ms: 5 })
    );
}

#[test]
fn only_effects_reach_the_disk() {
    let mut effects = PlanEffects::new();
    effects.removed = strings(&["b", "a", "b"]);
    effects.written = strings(&["z.md", "docs/.index", ".index", "a.md"]);
    effects.mkdirs = strings(&["f"]);
    let plan = disk_plan(&effects);
    assert_eq!(plan.removals, strings(&["a", "b"]));
    assert_eq!(plan.writes, strings(&["a.md", "z.md"]));
    assert_eq!(plan.folders, strings(&["f"]));
    let t = tree(&[("kept.md", "k")]);
    assert_eq!(decide_removal(&folder("/nb"), &t, "gone.md", &Found::File), Ok(true));
    assert_eq!(decide_removal(&folder("/nb"), &t, "kept.md", &Found::File), Ok(false));
    assert_eq!(decide_removal(&folder("/nb"), &t, "gone.md", &Found::Absent), Ok(false));
    assert!(matches!(
        decide_removal(&folder("/nb"), &t, "x", &Found::Symlink),
        Err(NbError::UnsupportedStructure { .. })
    ));
    assert_eq!(
        decide_removal(&folder("/nb"), &t, "x", &Found::Failed { source: io_error() }),
        Err(NbError::Io { path: "/nb/x".to_string(), source: io_error() })
    );
    assert!(decide_folder(&folder("/nb"), "a/b", &vec![LinkState::Symlink]).is_err());
    assert_eq!(decide_folder(&folder("/nb"), "a/b", &vec![LinkState::Absent]), Ok(()));
}

#[test]
fn raced_creations_are_not_overwritten() {
    let t = tree(&[("a.md", "mine")]);
    let created = strings(&["a.md"]);
    let look = |found: Found| Look { states: vec![], found };
    assert_eq!(
        decide_write(&folder("/nb"), &t, &created, &vec![], "a.md", &look(Found::Absent)),
        Ok(b"mine".to_vec())
    );
    assert_eq!(
        decide_write(&folder("/nb"), &t, &created, &vec![], "a.md", &look(Found::File)),
        Err(NbError::PathCollision { path: "a.md".to_string(), plan_index: None })
    );
    assert_eq!(
        decide_write(&folder("/nb"), &t, &created, &strings(&["a.md"]), "a.md", &look(Found::File)),
        Ok(b"mine".to_vec())
    );
    assert!(matches!(
        decide_write(&folder("/nb"), &t, &vec![], &vec![], "a.md", &look(Found::Symlink)),
        Err(NbError::UnsupportedStructure { .. })
    ));
    assert_eq!(
        decide_write(&folder("/nb"), &t, &vec![], &vec![], "b.md", &look(Found::Absent)),
        Err(invalid("plan effect `b.md` has no file content"))
    );
}

fn entry(path: &str, kind: DiskKind) -> DiskEntry {
    DiskEntry { rel: path.to_string(), kind }
}

fn begun(t: Transaction, entries: Vec<DiskEntry>, ignored: &[&str]) -> PlanRun {
    match begin(t, folder("/nb"), "rev1") {
        Begun::Planning(o) => o.snapshot(&strings(ignored), &entries).unwrap(),
        Begun::Finished(_) => panic!("the plan is not empty"),
    }
}

#[test]
fn commits_need_a_clean_notebook() {
    assert_eq!(check_baseline(false), Ok(()));
    assert!(matches!(check_baseline(true), Err(NbError::DirtyBaseline { .. })));
    match begin(Transaction::new("nb", 1), folder("/nb"), "rev1") {
        Begun::Finished(o) => {
            assert!(!o.commit_created);
            assert_eq!(o.pre_revision, "rev1");
            assert!(o.ops.is_empty());
        }
        Begun::Planning(_) => panic!("the plan is empty"),
    }
}

#[test]
fn commits_report_ids_after_writing() {
    let mut t = Transaction::new("nb", 1);
    t.add_note("docs/a.md", None, "x", &[]).unwrap();
    t.retitle_note(at("b.md"), "New").unwrap();
    let r = begun(t, vec![entry("b.md", DiskKind::File { bytes: b"# Old\n".to_vec() })], &[]);
    assert!(!r.is_complete());
    assert_eq!(r.next_probes(), strings(&["docs/a.md"]));
    let r = r.step(&vec![]).unwrap();
    assert_eq!(r.next_probes(), Vec::<String>::new());
    let r = r.step(&vec![]).unwrap();
    assert!(r.is_complete());
    let ready = r.ready(&strings(&["b.md"]), vec![]);
    assert_eq!(ready.message(), "nb-api transaction (2 ops)");
    let mut forced = ready.force_paths().clone();
    forced.sort();
    assert_eq!(forced, strings(&["b.md", "docs/.index", "docs/a.md"]));
    assert_eq!(ready.snapshot().clone(), strings(&["b.md"]));
    assert_eq!(ready.op_path(1), Some("b.md"));
    assert_eq!(ready.len(), 2);
    let groups = ready.index_groups();
    assert_eq!(groups.len(), 1);
    let placements = place_edits(&groups[0], b"a.md\n");
    let o = ready
        .finish(true, Some("rev2".to_string()), &placements, vec![None, Some(b"\nb.md\n".to_vec())])
        .unwrap();
    assert_eq!(o.revision_id.as_deref(), Some("rev2"));
    assert_eq!(o.ops[0].selector.as_deref(), Some("nb:docs/1"));
    assert_eq!(o.ops[0].numeric_id, Some(1));
    assert_eq!(o.ops[1].selector.as_deref(), Some("nb:b.md"));
    assert_eq!(o.ops[1].numeric_id, Some(2));
    assert_eq!(o.ops[1].index, 1);
}

#[test]
fn refused_operations_name_their_place() {
    let mut t = Transaction::new("nb", 1);
    t.add_note("a.md", None, "x", &[]).unwrap();
    t.add_note("a.md", None, "y", &[]).unwrap();
    let r = begun(t, vec![], &[]).step(&vec![]).unwrap();
    assert_eq!(
        r.step(&vec![]).err(),
        Some(NbError::PathCollision { path: "a.md".to_string(), plan_index: Some(1) })
    );
    let mut t = Transaction::new("nb", 1);
    t.add_note("a.org", None, "x", &[]).unwrap();
    match begun(t, vec![], &[]).step(&vec![]).err() {
        Some(NbError::PlanValidation { kind, plan_index, message }) => {
            assert_eq!((kind.as_str(), plan_index), ("op_failed", Some(0)));
            assert!(message.contains("org"));
        }
        other => panic!("unexpected {other:?}"),
    }
}

#[test]
fn symlinks_are_no_part_of_a_snapshot() {
    let mut t = Transaction::new("nb", 1);
    t.add_folder("x").unwrap();
    match begin(t, folder("/nb"), "r") {
        Begun::Planning(o) => assert_eq!(
            o.snapshot(&vec![], &vec![entry("l", DiskKind::Symlink)]).err(),
            Some(NbError::UnsupportedStructure {
                reason: "notebook path `l` is a symlink; transactions refuse symlink snapshot/materialization".to_string(),
            })
        ),
        Begun::Finished(_) => panic!("the plan is not empty"),
    }
}

#[test]
fn failures_restore_only_what_is_new() {
    let plan = || {
        let mut t = Transaction::new("nb", 1);
        t.add_note("new/a.md", None, "x", &[]).unwrap();
        begun(t, vec![entry("old.md", DiskKind::File { bytes: vec![] })], &[])
            .step(&vec![])
            .unwrap()
            .ready(&strings(&["old.md"]), strings(&["kept"]))
    };
    let lost = || NbError::NotFound { selector: "x".to_string() };
    match plan().fail(lost(), Some("rev1".to_string())) {
        Failure::Restore { error, pre_revision, mut owned, folders } => {
            owned.sort();
            assert_eq!(error, lost());
            assert_eq!(pre_revision, "rev1");
            assert_eq!(owned, strings(&["new/.index", "new/a.md"]));
            assert_eq!(folders, strings(&["kept"]));
        }
        other => panic!("unexpected {other:?}"),
    }
    match plan().fail(lost(), Some("rev2".to_string())) {
        Failure::Report(NbError::IndeterminateCommit { post_revision_observed, .. }) => {
            assert_eq!(post_revision_observed.as_deref(), Some("rev2"));
        }
        other => panic!("unexpected {other:?}"),
    }
    assert!(matches!(
        plan().finish(true, None, &vec![], vec![None]),
        Err(NbError::IndeterminateCommit { .. })
    ));
}

#[test]
fn restoring_is_verified() {
    let good = || RestoreFindings {
        reset_error: None,
        lost_folder: None,
        remaining: vec![],
        still_present: vec![],
        head: Ok("rev1".to_string()),
        dirty: Ok(false),
        observed_head: Some("seen".to_string()),
        observed_status: None,
    };
    let owned = strings(&["a"]);
    assert_eq!(restore_verdict("rev1", &owned, good()), Ok(()));
    let bad: Vec<RestoreFindings> = vec![
        RestoreFindings { reset_error: Some(NbError::EmptySubstringPattern), ..good() },
        RestoreFindings { lost_folder: Some(("d".to_string(), "why".to_string())), ..good() },
        RestoreFindings { remaining: strings(&["a (denied)"]), ..good() },
        RestoreFindings { still_present: strings(&["a"]), ..good() },
        RestoreFindings { head: Ok("rev2".to_string()), ..good() },
        RestoreFindings { head: Err(NbError::EmptySubstringPattern), ..good() },
        RestoreFindings { dirty: Ok(true), ..good() },
        RestoreFindings { dirty: Err(NbError::EmptySubstringPattern), ..good() },
    ];
    for f in bad {
        assert!(matches!(
            restore_verdict("rev1", &owned, f),
            Err(NbError::RecoveryRequired { .. })
        ));
    }
    match restore_verdict(
        "rev1",
        &owned,
        RestoreFindings { lost_folder: Some(("d".to_string(), "why".to_string())), ..good() },
    ) {
        Err(NbError::RecoveryRequired { preserved_paths, guidance, .. }) => {
            assert_eq!(preserved_paths, Some(strings(&["d"])));
            assert_eq!(
                guidance,
                "failed to restore baseline directory `d` after cleanup; do not retry blindly. underlying: why"
            );
        }
        other => panic!("unexpected {other:?}"),
    }
    assert_eq!(left_behind("a", "denied"), "a (denied)");
    assert_eq!(decide_cleanup(&Found::Symlink), Cleanup::RemoveFile);
    assert_eq!(decide_cleanup(&Found::Folder), Cleanup::RemoveFolder);
    assert_eq!(decide_cleanup(&Found::Absent), Cleanup::Nothing);
    assert_eq!(decide_cleanup(&Found::Failed { source: io_error() }), Cleanup::Report);
    assert_eq!(prunable_parents("a/b/c/d.md", &strings(&["a"])), strings(&["a/b/c", "a/b"]));
    assert_eq!(prunable_parents("d.md", &vec![]), Vec::<String>::new());
}

#[test]
fn new_entries_read_back() {
    let bytes = build_note_bytes(Some("T"), "body\n", &strings(&["a", "#b"]));
    let note = parse_as(&bytes, DocumentKind::Note).unwrap();
    assert_eq!(note.title(), Some(&b"# T\n"[..]));
    assert_eq!(note.tags(), vec![&b"a"[..], &b"b"[..]]);
    assert_eq!(note.body_bytes(), b"body\n");
    // A single tag makes no tag line.
    let bytes = build_note_bytes(None, "body", &strings(&["a"]));
    let note = parse_as(&bytes, DocumentKind::Note).unwrap();
    assert_eq!(note.body_bytes(), b"#a\n\nbody");

    let bytes = build_todo_bytes("Do", Some("## Tags\n#x"), &strings(&["one"]), &strings(&["t"]));
    let task = parse_as(&bytes, DocumentKind::Todo).unwrap();
    assert_eq!(task.title(), Some(&b"# [ ] Do\n"[..]));
    assert_eq!(task.todo_state(), Some(TodoState::Open));
    assert_eq!(task.tags(), vec![&b"t"[..]]);
    assert_eq!(task.body_bytes(), b"## Tasks\n\n- [ ] one\n\n## Description\n\n## Tags\n#x\n");
    let bytes = build_todo_bytes("Do", Some("text\n"), &vec![], &vec![]);
    let task = parse_as(&bytes, DocumentKind::Todo).unwrap();
    assert_eq!(task.body_bytes(), b"## Description\n\ntext\n\n");
    let bytes = build_todo_bytes("Do", None, &vec![], &strings(&["t"]));
    assert_eq!(parse_as(&bytes, DocumentKind::Todo).unwrap().body_bytes(), b"");

    let bytes =
        build_bookmark_bytes("http://x", Some("T"), &strings(&["t", "u"]), Some("## More\ntext"));
    let bookmark = parse_as(&bytes, DocumentKind::Bookmark).unwrap();
    assert_eq!(bookmark.title(), Some(&b"# T\n"[..]));
    assert_eq!(bookmark.url(), Some(&b"<http://x>\n"[..]));
    assert_eq!(bookmark.tags(), vec![&b"t"[..], &b"u"[..]]);
    assert_eq!(bookmark.body_bytes(), b"## Content\n\n## More\ntext\n");
    let bytes = build_bookmark_bytes("http://x", None, &vec![], Some("text"));
    let bookmark = parse_as(&bytes, DocumentKind::Bookmark).unwrap();
    assert_eq!(bookmark.body_bytes(), b"## Content\n\ntext\n\n");
    let bytes = build_bookmark_bytes("http://x", None, &strings(&["t"]), None);
    assert_eq!(parse_as(&bytes, DocumentKind::Bookmark).unwrap().body_bytes(), b"");
    // A comment that leaves a fence open hides the tags.
    let bytes = build_bookmark_bytes("http://x", None, &strings(&["t"]), Some("```"));
    let bookmark = parse_as(&bytes, DocumentKind::Bookmark).unwrap();
    assert!(bookmark.tags().is_empty());
}

#[test]
fn a_marked_title_reads_back() {
    let source = "  # [ ] Ünter [ ] two\r\n\r\ntext\r\n\r\n## Tags\r\n\r\n#t\r\n".as_bytes();
    let done = set_todo_state(source, "a.todo.md", true, None).unwrap();
    let task = parse_as(&done, DocumentKind::Todo).unwrap();
    assert_eq!(task.todo_state(), Some(TodoState::Done));
    assert_eq!(task.tags(), parse_as(source, DocumentKind::Todo).unwrap().tags());
    let open = set_todo_state(&done, "a.todo.md", false, None).unwrap();
    assert_eq!(open, source);
    // Other boxes in the title are left alone.
    for (source, done) in [
        (&b"# [ ] fix [x] here\n"[..], &b"# [x] fix [x] here\n"[..]),
        (b"# [ ] [x]\n", b"# [x] [x]\n"),
        (b"# [X] a [ ] b\n", b"# [x] a [ ] b\n"),
    ] {
        let marked = set_todo_state(source, "a.todo.md", true, None).unwrap();
        assert_eq!(marked, done);
        let task = parse_as(&marked, DocumentKind::Todo).unwrap();
        assert_eq!(task.todo_state(), Some(TodoState::Done));
        let open = set_todo_state(&marked, "a.todo.md", false, None).unwrap();
        let task = parse_as(&open, DocumentKind::Todo).unwrap();
        assert_eq!(task.todo_state(), Some(TodoState::Open));
    }
    // A title without one of its own.
    for (source, done) in [
        (&b"# fix\n"[..], &b"# [x] fix\n"[..]),
        (b"fix [ ] here\n", b"fix [x] here\n"),
        (b"fix\n", b"fix\n"),
    ] {
        assert_eq!(set_todo_state(source, "a.todo.md", true, None).unwrap(), done);
    }
}

#[test]
fn edited_tags_read_back() {
    let add = strings(&["new", "#b"]);
    let remove = strings(&["a"]);
    for (source, expected) in [
        (&b"# T\n\n#a #b\n\nbody\n"[..], vec![&b"b"[..], b"new"]),
        (b"# T\n\nbody\n", vec![b"new", b"b"]),
        (b"body", vec![b"new", b"b"]),
    ] {
        let doc = parse_as(source, DocumentKind::Note).unwrap();
        let edited = apply_tag_edit(&doc, &add, &remove);
        let after = parse_as(&edited, DocumentKind::Note).unwrap();
        assert_eq!(after.tags(), expected, "{source:?}");
        assert_eq!(after.title(), doc.title(), "{source:?}");
        assert_eq!(after.body_bytes(), doc.body_bytes(), "{source:?}");
    }
    for source in [&b"# [ ] T\n\ntext\n\n## Tags\n\n#a #b\n"[..], b"# [ ] T"] {
        let doc = parse_as(source, DocumentKind::Todo).unwrap();
        let edited = apply_tag_edit(&doc, &strings(&["new"]), &strings(&["a", "b"]));
        let after = parse_as(&edited, DocumentKind::Todo).unwrap();
        assert_eq!(after.tags(), vec![&b"new"[..]], "{source:?}");
    }
    for source in [
        &b"# T\n\n<http://x>\n\n## Content\n\ntext\n\n## Tags\n\n#a #b\n"[..],
        b"<http://x>\n\n## Tags\n#a #b\n```\n```\n\n## Content\n\n### text\n",
        b"\xef\xbb\xbf<http://x>\n\n## Content\n\ntext\r",
        b"<http://x>\n",
    ] {
        let doc = parse_as(source, DocumentKind::Bookmark).unwrap();
        let edited = apply_tag_edit(&doc, &strings(&["new", "one"]), &strings(&["a", "b"]));
        let after = parse_as(&edited, DocumentKind::Bookmark).unwrap();
        assert_eq!(after.tags(), vec![&b"new"[..], &b"one"[..]], "{source:?}");
        assert_eq!(after.url(), doc.url(), "{source:?}");
    }
    // What stands around the tags is left alone.
    let source = b"# T\n\n<http://x>\n\n## Tags\n\n#a\n\n## Content\n\ntext\n";
    let doc = parse_as(source, DocumentKind::Bookmark).unwrap();
    assert_eq!(
        apply_tag_edit(&doc, &strings(&["b"]), &vec![]),
        b"# T\n\n<http://x>\n\n## Tags\n\n#a #b\n\n## Content\n\ntext\n"
    );
    // A code fence that is left open takes in a new tag section.
    let doc = parse_as(b"<http://x>\n\n```\n", DocumentKind::Bookmark).unwrap();
    let edited = apply_tag_edit(&doc, &strings(&["new"]), &vec![]);
    assert!(parse_as(&edited, DocumentKind::Bookmark).unwrap().tags().is_empty());
}

#[test]
fn a_failed_step_ends_the_way_back() {
    let found = || RestoreFindings {
        reset_error: None,
        lost_folder: None,
        remaining: vec![],
        still_present: vec![],
        head: Ok("r".to_string()),
        dirty: Ok(false),
        observed_head: None,
        observed_status: None,
    };
    let stages = |findings: RestoreFindings| {
        let mut stage = RestoreStage::Reset;
        let mut seen = vec![stage];
        while stage != RestoreStage::Over {
            stage = next_stage(stage, &findings);
            seen.push(stage);
        }
        seen
    };
    let (reset, folders, remove) = (RestoreStage::Reset, RestoreStage::Folders, RestoreStage::Remove);
    let (verify, observe, over) = (RestoreStage::Verify, RestoreStage::Observe, RestoreStage::Over);
    assert_eq!(stages(found()), vec![reset, folders, remove, verify, observe, over]);
    let mut f = found();
    f.reset_error = Some(NbError::NotFound { selector: "x".to_string() });
    assert_eq!(stages(f), vec![reset, observe, over]);
    let mut f = found();
    f.lost_folder = Some(("d".to_string(), "denied".to_string()));
    assert_eq!(stages(f), vec![reset, folders, observe, over]);
    let mut f = found();
    f.remaining = strings(&["a.md (denied)"]);
    assert_eq!(stages(f), vec![reset, folders, remove, observe, over]);
}
