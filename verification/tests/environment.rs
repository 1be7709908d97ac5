use nb_api::git::Finished;
use nb_api::git_env::leaked_git_names;
use nb_api::git_signing::git_signing_env_vars;
use nb_api::nb_program::{
    has_spawnable_windows_extension, pathext_names, program_candidates, DEFAULT_PATHEXT,
};
use nb_api::testing::binary::{
    candidates, canonicalize_executable, fixture_child_path, path_dir_looks_poisoned,
    resolve_nb_override, safe_path_dirs, PathDir, SAFE_PATH_DIRS,
};
use nb_api::testing::fixture::{
    git_config_env, NbFailure, NbTestEnvBuilder, NbTestError, Setup, SetupAction, SetupEvent,
    SETTLE_ROUNDS,
};
use nb_api::testing::home::{
    home_from_passwd, home_from_passwd_style_line, parse_dscl_home, parse_u32, uid_from_status, uid_printed,
};

fn strings(items: &[&str]) -> Vec<String> {
    items.iter().map(|s| s.to_string()).collect()
}

fn absolute(path: &str) -> bool {
    std::path::Path::new(path).is_absolute()
}

#[test]
fn leaked_git_names_only_returns_git_prefixed() {
    let names = strings(&[
        "GIT_DIR",
        "PATH",
        "GIT_INDEX_FILE",
        "HOME",
        "git_dir",
        "GIT_",
        "FOO_GIT_BAR",
    ]);
    assert_eq!(
        leaked_git_names(&names),
        strings(&["GIT_DIR", "GIT_INDEX_FILE", "GIT_"])
    );
}

#[test]
fn pathext_names_default_order() {
    assert_eq!(
        pathext_names(".COM;.EXE;.BAT;.CMD"),
        strings(&["nb.com", "nb.exe", "nb.bat", "nb.cmd"])
    );
    assert_eq!(DEFAULT_PATHEXT, ".COM;.EXE;.BAT;.CMD");
}

#[test]
fn pathext_names_tolerates_spacing_and_empty_segments() {
    assert_eq!(pathext_names("  .CMD ;; .BAT ;"), strings(&["nb.cmd", "nb.bat"]));
}

#[test]
fn pathext_names_empty_yields_no_candidates() {
    assert!(pathext_names("").is_empty());
}

#[test]
fn testing_relative_nb_override_is_rejected() {
    let err = resolve_nb_override("relative/nb", absolute("relative/nb"), Some("/usr/bin/nb".to_string())).unwrap_err();
    assert!(err.contains("absolute"), "expected absolute-path error, got {err}");
    assert_eq!(
        err,
        "path must be absolute (got relative \"relative/nb\"); relative overrides break after fixture current_dir changes"
    );
}

#[test]
fn home_relative_nb_override_is_rejected() {
    let err = resolve_nb_override("relative/nb", absolute("relative/nb"), None).unwrap_err();
    assert!(err.contains("absolute"), "expected absolute-path error, got {err}");
}

#[test]
fn testing_relative_candidate_is_not_canonicalized() {
    assert!(canonicalize_executable(absolute("nb"), Some("/usr/bin/nb".to_string())).is_none());
    assert!(canonicalize_executable(absolute("./nb"), Some("/usr/bin/nb".to_string())).is_none());
}

#[test]
fn home_relative_candidate_is_not_canonicalized() {
    assert!(canonicalize_executable(absolute("nb"), None).is_none());
    assert!(canonicalize_executable(absolute("./nb"), None).is_none());
}

#[test]
fn testing_safe_path_dirs_include_homebrew_prefix() {
    assert!(
        SAFE_PATH_DIRS.contains(&"/opt/homebrew/bin"),
        "Apple Silicon Homebrew must be in SAFE_PATH_DIRS for poisoned-PATH discovery"
    );
}

#[test]
fn home_safe_path_dirs_include_homebrew_prefix() {
    assert!(
        SAFE_PATH_DIRS.contains(&"/opt/homebrew/bin"),
        "Apple Silicon Homebrew must be in SAFE_PATH_DIRS for poisoned-PATH discovery"
    );
    assert_eq!(safe_path_dirs(), strings(&SAFE_PATH_DIRS));
}

#[test]
fn testing_parses_macos_id_p_home_field() {
    let line = "me:********:501:20::0:0:Me:/Users/me:/bin/zsh";
    assert_eq!(home_from_passwd_style_line(line), Some("/Users/me".to_string()));
}

#[test]
fn home_parses_macos_id_p_home_field() {
    let line = "me:********:501:20::0:0:Me:/Users/me:/bin/zsh";
    assert_eq!(home_from_passwd_style_line(line), Some("/Users/me".to_string()));
}

#[test]
fn testing_parses_traditional_passwd_home_field() {
    let line = "me:x:1000:1000:Me:/home/me:/bin/bash";
    assert_eq!(home_from_passwd_style_line(line), Some("/home/me".to_string()));
}

#[test]
fn home_parses_traditional_passwd_home_field() {
    let line = "me:x:1000:1000:Me:/home/me:/bin/bash";
    assert_eq!(home_from_passwd_style_line(line), Some("/home/me".to_string()));
}

#[test]
fn testing_parses_dscl_nfs_home_directory() {
    assert_eq!(
        parse_dscl_home("NFSHomeDirectory: /Users/me\n"),
        Some("/Users/me".to_string())
    );
    assert_eq!(
        parse_dscl_home("dsAttrTypeNative:NFSHomeDirectory: /Users/me\n"),
        Some("/Users/me".to_string())
    );
}

#[test]
fn home_parses_dscl_nfs_home_directory() {
    assert_eq!(
        parse_dscl_home("NFSHomeDirectory: /Users/me\n"),
        Some("/Users/me".to_string())
    );
    assert_eq!(
        parse_dscl_home("dsAttrTypeNative:NFSHomeDirectory: /Users/me\n"),
        Some("/Users/me".to_string())
    );
}

#[test]
fn absolute_executable_is_taken_as_found() {
    assert_eq!(
        canonicalize_executable(true, Some("/tmp/fake-nb".to_string())),
        Some("/tmp/fake-nb".to_string())
    );
    assert_eq!(
        resolve_nb_override("/tmp/link", true, None),
        Err("path is not an executable file after canonicalize: \"/tmp/link\"".to_string())
    );
    assert_eq!(
        resolve_nb_override("/tmp/link", true, Some("/tmp/fake-nb".to_string())),
        Ok("/tmp/fake-nb".to_string())
    );
}

#[test]
fn short_or_empty_entries_have_no_home() {
    assert_eq!(home_from_passwd_style_line("me:x:1000"), None);
    assert_eq!(home_from_passwd_style_line("me:x:1:1:Me::/bin/sh"), None);
    assert_eq!(parse_dscl_home("NFSHomeDirectory:\nother\n"), None);
}

#[test]
fn passwd_is_searched_by_uid_until_a_bad_entry() {
    let file = "root:x:0:0:root:/root:/bin/sh\nme:x:1000:1000:Me:/home/me:/bin/bash\n";
    assert_eq!(home_from_passwd(file, 1000), Some("/home/me".to_string()));
    assert_eq!(home_from_passwd(file, 7), None);
    assert_eq!(home_from_passwd("broken\nme:x:1000:1000:Me:/home/me:/bin/bash\n", 1000), None);
    assert_eq!(home_from_passwd("a:x:b:1:A:/a:/bin/sh\nme:x:5:5:Me:/me:/bin/sh\n", 5), None);
    assert_eq!(uid_printed("1000\n"), Some(1000));
    assert_eq!(uid_from_status("Name:\tx\nUid:\t1000\t1001\n"), Some(1000));
    assert_eq!(uid_from_status("Uid:\n"), None);
    assert_eq!(uid_from_status("Gid:\t5\n"), None);
    assert_eq!(parse_u32("4294967295"), Some(u32::MAX));
    assert_eq!(parse_u32("4294967296"), None);
    assert_eq!(parse_u32("+7"), Some(7));
    assert_eq!(parse_u32(""), None);
}

#[test]
fn candidates_skip_misleading_and_relative_directories() {
    let got = candidates(
        &strings(&["nb"]),
        Some("/home/me".to_string()),
        &["/nonexistent/x", "bin", "/tmp/nb-shim-1", "/x/poisoned", "/good"]
            .iter()
            .map(|d| PathDir { path: d.to_string(), absolute: d.starts_with('/') })
            .collect(),
        '/',
    );
    assert_eq!(got[0], "/opt/homebrew/bin/nb");
    assert_eq!(got[8], "/home/me/.local/bin/nb");
    assert_eq!(got[9], "/good/nb");
    assert_eq!(got.len(), 10);
    assert!(got.iter().all(|p| p.starts_with('/')));
    let drive = vec![
        PathDir { path: "C:\\tools\\".to_string(), absolute: true },
        PathDir { path: "D:\\nb".to_string(), absolute: true },
        PathDir { path: "tools".to_string(), absolute: false },
    ];
    let got = candidates(&strings(&["nb.exe", "nb.cmd"]), None, &drive, '\\');
    assert_eq!(got[0], "/opt/homebrew/bin\\nb.exe");
    assert_eq!(
        got[16..],
        strings(&[
            "C:\\tools\\nb.exe",
            "C:\\tools\\nb.cmd",
            "D:\\nb\\nb.exe",
            "D:\\nb\\nb.cmd",
        ])
    );
    assert!(path_dir_looks_poisoned("/a/poisoned/b"));
    assert!(!path_dir_looks_poisoned("/usr/bin"));
}

#[test]
fn drive_letter_override_is_accepted_where_it_is_absolute() {
    assert_eq!(
        resolve_nb_override("C:\\tools\\nb.exe", true, Some("C:\\tools\\nb.exe".to_string())),
        Ok("C:\\tools\\nb.exe".to_string())
    );
    assert!(resolve_nb_override("C:\\tools\\nb.exe", false, None).is_err());
}

#[test]
fn program_is_looked_for_under_each_name_in_order() {
    let names = strings(&["nb.exe", "nb.cmd"]);
    let dirs = strings(&["C:\\a", "b\\"]);
    let found = strings(&["C:\\a\\nb.exe", "C:\\a\\nb.cmd", "b\\nb.exe", "b\\nb.cmd"]);
    assert_eq!(program_candidates(None, false, &names, &dirs, '\\'), found);
    let explicit = Some("nb".to_string());
    assert_eq!(program_candidates(explicit, false, &names, &dirs, '\\'), found);
    let explicit = Some("D:\\nb.exe".to_string());
    let got = program_candidates(explicit, true, &names, &dirs, '\\');
    assert_eq!(got[0], "D:\\nb.exe");
    assert_eq!(got[1..], found);
    assert!(has_spawnable_windows_extension(Some("CmD".to_string())));
    assert!(!has_spawnable_windows_extension(Some("sh".to_string())));
    assert!(!has_spawnable_windows_extension(None));
}

#[test]
fn child_path_holds_each_directory_once() {
    assert_eq!(
        fixture_child_path(Some("/usr/bin".to_string())),
        strings(&[
            "/usr/bin",
            "/opt/homebrew/bin",
            "/opt/homebrew/sbin",
            "/usr/local/bin",
            "/usr/local/sbin",
            "/bin",
            "/usr/sbin",
            "/sbin",
        ])
    );
}

#[test]
fn signing_overrides_are_numbered() {
    let pair = |a: &str, b: &str| (a.to_string(), b.to_string());
    assert_eq!(
        git_signing_env_vars(0),
        vec![
            pair("GIT_CONFIG_COUNT", "2"),
            pair("GIT_CONFIG_KEY_0", "commit.gpgsign"),
            pair("GIT_CONFIG_VALUE_0", "false"),
            pair("GIT_CONFIG_KEY_1", "tag.gpgsign"),
            pair("GIT_CONFIG_VALUE_1", "false"),
        ]
    );
    assert_eq!(git_signing_env_vars(9)[3].0, "GIT_CONFIG_KEY_10");
    assert_eq!(git_config_env().len(), 9);
    assert_eq!(git_config_env()[8], pair("GIT_CONFIG_VALUE_3", "lf"));
}

#[test]
fn fixture_layout_follows_the_builder() {
    let plain = NbTestEnvBuilder::default().layout("/tmp/root", '/');
    assert_eq!(plain.nb_dir, "/tmp/root/.nb");
    assert_eq!(plain.working_dir, "/tmp/root/work");
    assert_eq!(plain.home_dir, "/tmp/root/home");
    assert_eq!(plain.notebook, "scratch");
    assert!(plain.owns_working_dir);
    let own = NbTestEnvBuilder::default()
        .notebook("home")
        .working_directory("/elsewhere")
        .layout("/tmp/root", '/');
    assert_eq!(own.notebook, "home");
    assert_eq!(own.working_dir, "/elsewhere");
    assert!(!own.owns_working_dir);
}

fn ran(success: bool, stdout: &str) -> SetupEvent {
    SetupEvent::Ran {
        process: Finished {
            success,
            code: Some(if success { 0 } else { 1 }),
            stdout: stdout.as_bytes().to_vec(),
            stderr: Vec::new(),
        },
        status: "exit status: 1".to_string(),
    }
}

fn until_status() -> Setup {
    let layout = NbTestEnvBuilder::default().layout("/r", '/');
    let (s, first) = Setup::start(layout);
    match first {
        SetupAction::WriteFile { path, content } => {
            assert_eq!(path, "/r/home/.gitconfig");
            assert_eq!(content, "[user]\n\tname = nb-api tests\n\temail = nb-api@localhost\n");
        }
        other => panic!("unexpected {other:?}"),
    }
    let (s, a) = s.next(SetupEvent::Done);
    assert!(matches!(a, SetupAction::MakeFolder { path } if path == "/r/.nb/.init_stub"));
    let (s, a) = s.next(SetupEvent::Done);
    assert!(matches!(a, SetupAction::RunNb { args } if args == strings(&["notebooks", "add", "scratch"])));
    let (s, a) = s.next(ran(true, ""));
    assert!(
        matches!(a, SetupAction::WriteFile { path, content } if path == "/r/.nb/.current" && content == "scratch")
    );
    let (s, a) = s.next(SetupEvent::Done);
    assert!(
        matches!(a, SetupAction::RunGit { args } if args == strings(&["config", "core.autocrlf", "false"]))
    );
    let (s, a) = s.next(ran(true, ""));
    assert!(
        matches!(a, SetupAction::RunGit { args } if args == strings(&["status", "--porcelain", "-uall", "--ignored=no"]))
    );
    s
}

#[test]
fn setup_is_ready_after_two_clean_looks() {
    let s = until_status();
    let (s, a) = s.next(ran(true, " \n"));
    assert!(matches!(a, SetupAction::RunGit { args } if args == strings(&["add", "-A"])));
    let (s, _) = s.next(ran(true, ""));
    let (s, a) = s.next(ran(false, "nothing to commit, working tree clean"));
    assert!(matches!(a, SetupAction::RestAndCheck { .. }));
    let (_, a) = s.next(ran(true, ""));
    assert!(matches!(a, SetupAction::Ready));
}

#[test]
fn setup_gives_up_after_the_last_round() {
    let mut s = until_status();
    for round in 0..SETTLE_ROUNDS {
        let (t, _) = s.next(ran(true, "?? .index"));
        let (t, _) = t.next(ran(true, ""));
        let (t, a) = t.next(ran(true, ""));
        s = t;
        if round + 1 < SETTLE_ROUNDS {
            assert!(matches!(a, SetupAction::RestAndCheck { .. }));
        } else {
            match a {
                SetupAction::Fail { error } => assert_eq!(
                    error.message_text(),
                    "io error during fixture baseline did not settle clean in /r/.nb/scratch: notebook repo never reached a clean baseline"
                ),
                other => panic!("unexpected {other:?}"),
            }
        }
    }
}

#[test]
fn setup_without_git_is_still_ready() {
    let s = until_status();
    let (_, a) = s.next(SetupEvent::Refused { missing: true, message: "no git".to_string() });
    assert!(matches!(a, SetupAction::Ready));
    let (s, _) = Setup::start(NbTestEnvBuilder::default().layout("/r", '/'));
    let (_, a) = s.next(SetupEvent::Refused { missing: true, message: "denied".to_string() });
    match a {
        SetupAction::Fail { error } => assert_eq!(
            error.message_text(),
            "io error during write .gitconfig to /r/home/.gitconfig: denied"
        ),
        other => panic!("unexpected {other:?}"),
    }
}

#[test]
fn setup_failure_shows_both_outputs() {
    let s = until_status();
    let (_, a) = s.next(ran(false, "boom"));
    match a {
        SetupAction::Fail { error } => {
            assert_eq!(
                error,
                NbTestError::Nb {
                    context: "fixture baseline `git status --porcelain` in /r/.nb/scratch".to_string(),
                    failure: NbFailure {
                        status: "exit status: 1".to_string(),
                        stdout: "boom".to_string(),
                        stderr: String::new(),
                    },
                }
            );
            assert_eq!(
                error.message_text(),
                "nb command failed during fixture baseline `git status --porcelain` in /r/.nb/scratch: exit status: exit status: 1\nstdout: boom\nstderr: <empty>"
            );
        }
        other => panic!("unexpected {other:?}"),
    }
}
