use sandbox_run::bwrap::{
    exit_code, getent_group_args, getent_passwd_args, getent_text, group_file, home_dir,
    passwd_file, tmp_dir, Bind, Sandbox,
};
use sandbox_run::environ::{parse_null_separated_env, EnvMap, EnvVar, NameSet};
use sandbox_run::invocation::{
    announcement, error_report, failure, missing_tool, program_name, read_invocation, start, usage,
    Invocation, Start,
};
use sandbox_run::lookup::{
    command_not_found, is_executable, own_identity, resolve_command, resolve_symlink_bin, search_path,
    symlink_lookup, which, Action, Lookup, Probe,
};
use sandbox_run::settings::{read_settings, ProcessSettings, Settings};

fn bytes(list: &[&str]) -> Vec<Vec<u8>> {
    list.iter().map(|s| s.as_bytes().to_vec()).collect()
}

/// Runs a search; gives the paths that were probed and the path that was found.
fn run(mut lookup: Lookup, answer: impl Fn(&[u8]) -> Probe) -> (Vec<Vec<u8>>, Option<Vec<u8>>) {
    let mut probed = Vec::new();
    loop {
        match lookup.action() {
            Action::Probe(path) => {
                lookup.answer(answer(&path));
                probed.push(path);
            }
            Action::Found(path) => return (probed, Some(path)),
            Action::Missing => return (probed, None),
        }
    }
}

fn only(paths: &[&str]) -> impl Fn(&[u8]) -> Probe {
    let paths = bytes(paths);
    move |p: &[u8]| {
        if paths.contains(&p.to_vec()) {
            Probe::Runnable(Some(p.to_vec()))
        } else {
            Probe::Unfit
        }
    }
}

#[test]
fn a_command_is_found_on_the_search_path() {
    let lookup = resolve_command(b"ls", b"/usr/local/bin:/usr/bin:/bin", None);
    assert_eq!(
        run(lookup, only(&["/usr/bin/ls", "/bin/ls"])),
        (bytes(&["/usr/local/bin/ls", "/usr/bin/ls"]), Some(b"/usr/bin/ls".to_vec()))
    );
}

#[test]
fn a_command_with_a_slash_is_a_path() {
    assert_eq!(
        run(resolve_command(b"./x", b"/bin", None), only(&[])),
        (bytes(&[]), Some(b"./x".to_vec()))
    );
}

#[test]
fn an_empty_directory_is_the_current_one() {
    let (probed, found) = run(resolve_command(b"ls", b":/bin/:", None), only(&[]));
    assert_eq!(probed, bytes(&["./ls", "/bin/ls", "./ls"]));
    assert_eq!(found, None);
}

#[test]
fn a_command_is_not_found() {
    assert_eq!(run(resolve_command(b"nope", b"/bin", None), only(&[])).1, None);
    assert_eq!(command_not_found(b"nope"), "nope: command not found");
    assert_eq!(command_not_found(b"n\xff"), "n\u{fffd}: command not found");
}

#[test]
fn a_command_is_not_the_program_itself() {
    let own = Some(b"/opt/sandbox-run".to_vec());
    let answer = |p: &[u8]| {
        if p == b"/home/bin/python" {
            Probe::Runnable(Some(b"/opt/sandbox-run".to_vec()))
        } else {
            Probe::Runnable(Some(p.to_vec()))
        }
    };
    assert_eq!(
        run(resolve_command(b"python", b"/home/bin:/usr/bin", own), answer).1,
        Some(b"/usr/bin/python".to_vec())
    );
    // Nothing is passed over where the program does not know its own path.
    assert_eq!(
        run(resolve_command(b"python", b"/home/bin:/usr/bin", None), answer).1,
        Some(b"/home/bin/python".to_vec())
    );
}

#[test]
fn a_symlink_stands_for_another_binary() {
    let own = Some(b"/opt/sandbox-run".to_vec());
    let answer = |p: &[u8]| match p {
        b"/home/bin/python" => Probe::Runnable(Some(b"/opt/sandbox-run".to_vec())),
        b"/usr/bin/python" => Probe::Runnable(Some(b"/usr/bin/python3.12".to_vec())),
        _ => Probe::Unfit,
    };
    let lookup = resolve_symlink_bin(b"/home/bin/python", b"python", b"/home/bin:/none:/usr/bin", own);
    assert_eq!(
        run(lookup, answer),
        (
            bytes(&["/home/bin/python", "/none/python", "/usr/bin/python"]),
            Some(b"/usr/bin/python".to_vec())
        )
    );
}

#[test]
fn a_symlink_without_another_binary_stays() {
    let own = Some(b"/opt/sandbox-run".to_vec());
    let lookup = symlink_lookup(b"./python", "python", b"/home/bin", own);
    assert_eq!(run(lookup, |_| Probe::Runnable(Some(b"/opt/sandbox-run".to_vec()))).1, Some(b"./python".to_vec()));
}

#[test]
fn a_candidate_of_unknown_identity_is_accepted() {
    let own = Some(b"/opt/sandbox-run".to_vec());
    let lookup = symlink_lookup(b"./x", "x", b"/bin", own);
    assert_eq!(run(lookup, |_| Probe::Runnable(None)).1, Some(b"/bin/x".to_vec()));
    let lookup = symlink_lookup(b"./x", "x", b"/bin", None);
    assert_eq!(run(lookup, |_| Probe::Runnable(None)).1, Some(b"/bin/x".to_vec()));
}

#[test]
fn symlink_candidates_are_text() {
    let lookup = resolve_symlink_bin(b"x\xff", b"x\xff", b"/bin:", None);
    let (probed, found) = run(lookup, |_| Probe::Unfit);
    assert_eq!(probed, bytes(&["/bin/x\u{fffd}", "/x\u{fffd}"]));
    assert_eq!(found, Some(b"x\xff".to_vec()));
}

#[test]
fn a_tool_on_the_search_path() {
    assert_eq!(
        run(which(b"bwrap", b"/usr/bin:"), only(&["bwrap"])),
        (bytes(&["/usr/bin/bwrap", "bwrap"]), Some(b"bwrap".to_vec()))
    );
    assert_eq!(run(which(b"bwrap", b"/usr/bin"), only(&[])).1, None);
}

#[test]
fn default_search_path() {
    assert_eq!(search_path(None), b"/usr/local/bin:/usr/bin:/bin".to_vec());
    assert_eq!(search_path(Some(b"/x".to_vec())), b"/x".to_vec());
}

#[test]
fn execute_permissions() {
    assert!(is_executable(Some(0o100755)));
    assert!(is_executable(Some(0o100010)));
    assert!(is_executable(Some(0o001)));
    assert!(!is_executable(Some(0o100644)));
    assert!(!is_executable(Some(0o7666)));
    assert!(!is_executable(None));
}

#[test]
fn probes() {
    assert!(matches!(Probe::of_tool(true, Some(0o755)), Probe::Runnable(None)));
    assert!(matches!(Probe::of_tool(false, Some(0o755)), Probe::Unfit));
    assert!(matches!(Probe::of_tool(true, Some(0o644)), Probe::Unfit));
    assert!(matches!(Probe::of_command(Some(0o644), Some(b"/x".to_vec())), Probe::Unfit));
    assert!(matches!(Probe::of_command(None, None), Probe::Unfit));
    match Probe::of_command(Some(0o111), Some(b"/x".to_vec())) {
        Probe::Runnable(Some(target)) => assert_eq!(target, b"/x".to_vec()),
        _ => panic!("not runnable"),
    }
}

#[test]
fn messages_of_the_program() {
    assert_eq!(usage("sr"), "Usage: sr ARG...");
    assert_eq!(error_report("sr", "no"), "sr: no");
    assert_eq!(announcement("/bin/ls -l "), "sandbox-run: exec bwrap [...] /bin/ls -l ");
}

#[test]
fn called_through_a_symlink() {
    match read_invocation(&bytes(&["./bin/python", "-c", "1"]), true) {
        Invocation::Symlink { base, user_args } => {
            assert_eq!(base, b"python".to_vec());
            assert_eq!(user_args, bytes(&["-c", "1"]));
        }
        _ => panic!("not a symlink"),
    }
    match read_invocation(&bytes(&["a/.."]), true) {
        Invocation::Symlink { base, user_args } => {
            assert_eq!(base, b"a/..".to_vec());
            assert_eq!(user_args, bytes(&[]));
        }
        _ => panic!("not a symlink"),
    }
}

#[test]
fn called_directly() {
    match read_invocation(&bytes(&["sandbox-run", "ls", "-l"]), false) {
        Invocation::Direct { cmd, user_args } => {
            assert_eq!(cmd, b"ls".to_vec());
            assert_eq!(user_args, bytes(&["-l"]));
        }
        _ => panic!("not direct"),
    }
}

#[test]
fn called_without_a_command() {
    match read_invocation(&bytes(&["/usr/bin/sr"]), false) {
        Invocation::Usage(name) => assert_eq!(name, "sr"),
        _ => panic!("no usage"),
    }
    match read_invocation(&bytes(&["/"]), false) {
        Invocation::Usage(name) => assert_eq!(name, "sandbox-run"),
        _ => panic!("no usage"),
    }
    assert_eq!(program_name(b"x/y\xff"), "y\u{fffd}");
}

#[test]
fn a_host_without_the_tool() {
    let exit = missing_tool(&None).unwrap();
    assert_eq!(exit.message, "Error: Missing bwrap (apt install bubblewrap?)");
    assert_eq!(exit.code, 127);
    assert!(missing_tool(&Some(b"/usr/bin/bwrap".to_vec())).is_none());
}

#[test]
fn failures() {
    let exit = failure(b"/usr/bin/sr", "no such file");
    assert_eq!(exit.message, "sr: no such file");
    assert_eq!(exit.code, 1);
    assert_eq!(failure(b"", "x").message, "sandbox-run: x");
}

#[test]
fn starting_through_a_symlink() {
    let own = Some(b"/opt/sandbox-run".to_vec());
    match start(&bytes(&["./bin/python", "-c"]), true, b"/usr/bin", own) {
        Start::Search { lookup, user_args } => {
            assert_eq!(user_args, bytes(&["-c"]));
            assert_eq!(
                run(lookup, |_| Probe::Unfit),
                (bytes(&["/usr/bin/python"]), Some(b"./bin/python".to_vec()))
            );
        }
        Start::Stop(_) => panic!("stopped"),
    }
}

#[test]
fn starting_directly() {
    let own = Some(b"/opt/sandbox-run".to_vec());
    let itself = |p: &[u8]| match p {
        b"/opt/sandbox-run" => Probe::Runnable(Some(b"/opt/sandbox-run".to_vec())),
        _ => Probe::Runnable(Some(p.to_vec())),
    };
    match start(&bytes(&["sandbox-run", "sandbox-run", "x"]), false, b"/opt:/usr/bin", own) {
        Start::Search { lookup, user_args } => {
            assert_eq!(user_args, bytes(&["x"]));
            assert_eq!(run(lookup, itself).1, Some(b"/usr/bin/sandbox-run".to_vec()));
        }
        Start::Stop(_) => panic!("stopped"),
    }
}

#[test]
fn starting_without_a_command() {
    match start(&bytes(&["/usr/bin/sr"]), false, b"/bin", None) {
        Start::Search { .. } => panic!("started"),
        Start::Stop(exit) => {
            assert_eq!(exit.message, "Usage: sr ARG...");
            assert_eq!(exit.code, 1);
        }
    }
}

#[test]
fn files_of_the_sandbox() {
    assert_eq!(home_dir(b"/w"), b"/w/.sandbox-home".to_vec());
    assert_eq!(tmp_dir(b"/w"), b"/w/.sandbox-home/tmp".to_vec());
    assert_eq!(passwd_file(b"/w"), b"/w/.sandbox-home/tmp/.passwd".to_vec());
    assert_eq!(group_file(b"/"), b"/.sandbox-home/tmp/.group".to_vec());
}

fn sandbox() -> Sandbox {
    let mut parent = NameSet::new();
    parent.insert("HOME".to_string());
    parent.insert("TERM".to_string());
    Sandbox {
        bin: b"/usr/bin/ls".to_vec(),
        user_args: bytes(&["-l", ""]),
        cwd: b"/w".to_vec(),
        uid: 1000,
        ro_binds: vec![
            Bind { path: b"/opt".to_vec(), exists: true },
            Bind { path: b"/gone".to_vec(), exists: false },
            Bind { path: b"/usr".to_vec(), exists: true },
        ],
        rw_binds: vec![Bind { path: b"/rw".to_vec(), exists: true }],
        dotenv: None,
        process_vars: vec![
            EnvVar { name: "A".to_string(), value: b"1".to_vec() },
            EnvVar { name: "HOME".to_string(), value: b"/root".to_vec() },
            EnvVar { name: "TERM".to_string(), value: b"xterm".to_vec() },
        ],
        parent,
        settings: Settings {
            ro_bind: vec!["/opt".to_string(), "/gone".to_string()],
            bwrap_args: "--new\nx y\n\n".to_string(),
            process_bwrap_args: " --prev".to_string(),
            verbose: false,
        },
    }
}

fn verbose(upper: Option<&str>, lower: Option<&str>) -> ProcessSettings {
    ProcessSettings {
        sandbox_ro_bind: Some("/opt".to_string()),
        bwrap_args: Some("--prev".to_string()),
        verbose_upper: upper.map(str::to_string),
        verbose_lower: lower.map(str::to_string),
    }
}

/// A sandbox whose parent knows the verbose variables, so that they do not pass.
fn sandbox_with(vars: Vec<EnvVar>, dotenv: Option<EnvMap>, process: ProcessSettings) -> Sandbox {
    let mut s = sandbox();
    s.parent.insert("VERBOSE".to_string());
    s.parent.insert("verbose".to_string());
    s.settings = read_settings(&dotenv, process);
    s.process_vars.extend(vars);
    s.dotenv = dotenv;
    s
}

fn var(name: &str, value: &str) -> EnvVar {
    EnvVar { name: name.to_string(), value: value.as_bytes().to_vec() }
}

#[test]
fn the_verbose_setting_only_traces() {
    let quiet = sandbox_with(vec![], None, verbose(None, None));
    let upper = sandbox_with(vec![var("VERBOSE", "1")], None, verbose(Some("1"), None));
    let lower = sandbox_with(
        vec![var("VERBOSE", ""), var("verbose", "yes")],
        None,
        verbose(Some(""), Some("yes")),
    );
    let empty = sandbox_with(
        vec![var("VERBOSE", ""), var("verbose", "")],
        None,
        verbose(Some(""), Some("")),
    );
    for s in [&upper, &lower, &empty] {
        assert_eq!(s.argv(), quiet.argv());
        assert_eq!(s.settings.ro_bind, quiet.settings.ro_bind);
    }
    assert_eq!(quiet.trace(), None);
    assert_eq!(empty.trace(), None);
    assert_eq!(upper.trace(), lower.trace());
    assert!(upper.trace().unwrap().starts_with("+ bwrap --tmpfs /tmp "));
}

#[test]
fn the_verbose_setting_of_a_dotenv_file_only_traces() {
    let load = |block: &[u8]| Some(parse_null_separated_env(block));
    let quiet = sandbox_with(vec![], load(b"B=2\0BWRAP_ARGS=--d\0"), verbose(None, None));
    let traced =
        sandbox_with(vec![], load(b"B=2\0VERBOSE=1\0BWRAP_ARGS=--d\0"), verbose(None, None));
    assert_eq!(traced.argv(), quiet.argv());
    assert!(quiet.argv().contains(&b"--d".to_vec()));
    assert_eq!(quiet.trace(), None);
    assert!(traced.trace().unwrap().ends_with("--setenv B 2 --d --prev /usr/bin/ls -l "));
}

#[test]
fn a_verbose_variable_that_passes_is_set() {
    let mut s = sandbox();
    s.process_vars.push(var("VERBOSE", "1"));
    assert!(s.argv().contains(&b"VERBOSE".to_vec()));
    assert_eq!(s.trace(), None);
}

#[test]
fn the_arguments_of_bwrap() {
    assert_eq!(
        sandbox().argv(),
        bytes(&[
            "--tmpfs", "/tmp", "--tmpfs", "/run", "--proc", "/proc", "--dev", "/dev", "--symlink",
            "/run", "/var/run", "--symlink", "/tmp", "/var/tmp", "--symlink", "/usr/bin", "/bin",
            "--symlink", "/usr/bin", "/sbin", "--dev-bind-try", "/dev/fuse", "/dev/fuse",
            "--ro-bind", "/usr/bin/ls", "/usr/bin/ls",
            "--ro-bind-try", "/opt", "/opt", "--ro-bind-try", "/usr", "/usr",
            "--bind-try", "/rw", "/rw",
            "--bind", "/w", "/w", "--chdir", "/w",
            "--clearenv", "--unshare-all", "--share-net", "--new-session", "--die-with-parent",
            "--dir", "/run/user/1000", "--setenv", "XDG_RUNTIME_DIR", "/run/user/1000",
            "--setenv", "PATH", "/usr/bin", "--setenv", "PS1", "\\u @ \\h \\$ ",
            "--setenv", "HOME", "/w/.sandbox-home", "--setenv", "USER", "user",
            "--setenv", "TMPDIR", "/w/.sandbox-home/tmp",
            "--ro-bind", "/w/.sandbox-home/tmp/.passwd", "/etc/passwd",
            "--ro-bind", "/w/.sandbox-home/tmp/.group", "/etc/group",
            "--setenv", "TERM", "xterm", "--setenv", "A", "1",
            "--new", "x y", "--prev", "/usr/bin/ls", "-l", "",
        ])
    );
}

#[test]
fn the_command_comes_last() {
    let argv = sandbox().argv();
    assert_eq!(argv[argv.len() - 3..].to_vec(), bytes(&["/usr/bin/ls", "-l", ""]));
}

#[test]
fn only_paths_of_the_host_are_bound() {
    let argv = sandbox().argv();
    assert!(!argv.contains(&b"/gone".to_vec()));
    assert!(argv.contains(&b"/opt".to_vec()));
}

#[test]
fn the_environment_is_cleared_before_it_is_set() {
    let argv = sandbox().argv();
    let clear = argv.iter().position(|a| a == b"--clearenv").unwrap();
    let set = argv.iter().position(|a| a == b"--setenv").unwrap();
    assert!(clear < set);
}

#[test]
fn user_database_calls() {
    assert_eq!(getent_passwd_args(1000), bytes(&["passwd", "1000", "65534"]));
    assert_eq!(
        getent_group_args(0),
        bytes(&[
            "group", "0", "65534", "adm", "sudo", "audio", "dip", "video", "plugdev", "staff",
            "users", "netdev", "scanner", "bluetooth", "lpadmin"
        ])
    );
    assert_eq!(getent_text(Some(b"root:x:0:0\xff\n".to_vec())), "root:x:0:0\u{fffd}\n");
    assert_eq!(getent_text(None), "");
}

#[test]
fn exit_codes() {
    assert_eq!(exit_code(Some(3)), 3);
    assert_eq!(exit_code(None), 1);
}

#[test]
fn the_identity_of_the_program() {
    let link = || Some(b"/opt/link-target".to_vec());
    let exe = || Some(b"/opt/sandbox-run".to_vec());
    assert_eq!(own_identity(true, link(), exe()), link());
    assert_eq!(own_identity(true, None, exe()), None);
    assert_eq!(own_identity(false, link(), exe()), exe());
    assert_eq!(own_identity(false, link(), None), link());
    assert_eq!(own_identity(false, None, None), None);
}
