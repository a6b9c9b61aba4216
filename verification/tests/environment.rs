use sandbox_run::dotenv::{dotenv_keys, dotenv_outcome, dotenv_path, dotenv_script, shell_args};
use sandbox_run::environ::{
    block_vars, current_env, dotenv_env, env_source, environ_names, environ_path, first_values,
    name_set, parse_null_separated_env, EnvSource, EnvVar, NameSet,
};
use sandbox_run::passthrough::{build_env_pass_through, passes_through, setenv_args};
use sandbox_run::settings::{env_get, read_settings, ProcessSettings};

fn bytes(list: &[&str]) -> Vec<Vec<u8>> {
    list.iter().map(|s| s.as_bytes().to_vec()).collect()
}

fn vars(list: &[(&str, &str)]) -> Vec<EnvVar> {
    list.iter()
        .map(|(n, v)| EnvVar { name: n.to_string(), value: v.as_bytes().to_vec() })
        .collect()
}

fn shown(list: &[EnvVar]) -> Vec<(String, Vec<u8>)> {
    list.iter().map(|v| (v.name.clone(), v.value.clone())).collect()
}

fn pairs(list: &[(&str, &str)]) -> Vec<(String, Vec<u8>)> {
    list.iter().map(|(n, v)| (n.to_string(), v.as_bytes().to_vec())).collect()
}

fn parent(list: &[&str]) -> NameSet {
    let mut set = NameSet::new();
    for name in list {
        set.insert(name.to_string());
    }
    set
}

#[test]
fn a_block_of_variables() {
    let map = parse_null_separated_env(b"A=1\0B=x=y\0\0junk\0A=2\0=odd\0");
    assert_eq!(map.get(b"A"), Some(b"2".to_vec()));
    assert_eq!(map.get(b"B"), Some(b"x=y".to_vec()));
    assert_eq!(map.get(b""), Some(b"odd".to_vec()));
    assert_eq!(map.get(b"junk"), None);
    assert_eq!(map.get(b"a"), None);
    assert_eq!(dotenv_env(&map).len(), 3);
}

#[test]
fn a_block_is_read_back() {
    assert_eq!(
        shown(&block_vars(b"PATH=/bin\0EMPTY=\0X=a=b\0")),
        pairs(&[("PATH", "/bin"), ("EMPTY", ""), ("X", "a=b")])
    );
}

#[test]
fn values_need_not_be_text() {
    let map = parse_null_separated_env(b"A=\xff\xfe");
    assert_eq!(map.get(b"A"), Some(vec![0xff, 0xfe]));
    assert_eq!(block_vars(b"\xffK=1\0")[0].name, "\u{fffd}K");
}

#[test]
fn settings() {
    let map = Some(parse_null_separated_env(b"BWRAP_ARGS=--x\0BAD=a\xffb\0"));
    assert_eq!(env_get(&map, "BWRAP_ARGS", Some("--y".to_string())), "--x");
    assert_eq!(env_get(&map, "VERBOSE", Some("1".to_string())), "1");
    assert_eq!(env_get(&map, "VERBOSE", None), "");
    assert_eq!(env_get(&map, "BAD", None), "a\u{fffd}b");
    assert_eq!(env_get(&None, "VERBOSE", Some("yes".to_string())), "yes");
    assert_eq!(env_get(&None, "VERBOSE", None), "");
}

#[test]
fn the_first_value_counts() {
    assert_eq!(
        shown(&first_values(vars(&[("A", "1"), ("B", "2"), ("A", "3")]))),
        pairs(&[("A", "1"), ("B", "2")])
    );
}

#[test]
fn the_environment_of_the_process() {
    let later = vec![
        (b"B".to_vec(), b"new".to_vec()),
        (b"C".to_vec(), b"3".to_vec()),
    ];
    assert_eq!(
        shown(&current_env(b"B=2\0A=1\0B=9\0nothing\0", &later)),
        pairs(&[("B", "2"), ("A", "1"), ("C", "3")])
    );
}

#[test]
fn names_of_a_block() {
    let names = environ_names(Some(b"A=1\0B\0\xc3\xa9=2\0".to_vec()));
    assert!(names.contains("A"));
    assert!(!names.contains("B"));
    assert!(names.contains("\u{e9}"));
    assert!(!name_set(&vars(&[("A", "1")])).contains("B"));
    assert!(!environ_names(None).contains(""));
    assert_eq!(environ_path(4711), "/proc/4711/environ");
}

#[test]
fn a_set_of_names() {
    let mut set = NameSet::new();
    assert!(set.insert("A".to_string()));
    assert!(!set.insert("A".to_string()));
    assert!(set.insert("B".to_string()));
    assert!(set.contains("A") && set.contains("B") && !set.contains("C"));
}

#[test]
fn allowed_names_pass() {
    let all = parent(&["PATH", "LC_ALL", "HOME", "http_proxy", "MAKEFLAGS", "Path"]);
    assert!(passes_through("PATH", &all));
    assert!(passes_through("LC_ALL", &all));
    assert!(passes_through("LC_", &all));
    assert!(passes_through("http_proxy", &all));
    assert!(passes_through("MAKEFLAGS", &all));
    assert!(!passes_through("HOME", &all));
    assert!(!passes_through("Path", &all));
}

#[test]
fn names_unknown_to_the_parent_pass() {
    assert!(passes_through("SECRET", &parent(&[])));
    assert!(!passes_through("SECRET", &parent(&["SECRET"])));
    assert!(passes_through("", &parent(&[])));
}

#[test]
fn denied_names_never_pass() {
    for name in ["_", "LS_COLORS", "PS1", "BWRAP_ARGS", "SANDBOX_RO_BIND", "_X", "__"] {
        assert!(!passes_through(name, &parent(&[])), "{}", name);
    }
}

#[test]
fn pass_through_arguments() {
    let current = vars(&[("PATH", "/bin"), ("HOME", "/root"), ("NEW", "a b"), ("_", "x"), ("LANG", "C")]);
    assert_eq!(
        setenv_args(&current, &parent(&["PATH", "HOME", "LANG"])),
        bytes(&["--setenv", "LANG", "C", "--setenv", "NEW", "a b", "--setenv", "PATH", "/bin"])
    );
    assert_eq!(setenv_args(&vars(&[]), &parent(&[])), bytes(&[]));
}

#[test]
fn more_in_the_parent_lets_less_through() {
    let current = vars(&[("A", "1"), ("B", "2")]);
    assert_eq!(setenv_args(&current, &parent(&[])).len(), 6);
    assert_eq!(setenv_args(&current, &parent(&["A"])), bytes(&["--setenv", "B", "2"]));
}

#[test]
fn dotenv_assignments() {
    let content = "# comment\nA=1\nexport B=2\n C=3\nD_1=x=y\n=z\nno assignment\n\u{c9}T\u{c9}=1\r\nA=4";
    let expected: Vec<String> = ["A", "D_1", "\u{c9}T\u{c9}", "A"].iter().map(|s| s.to_string()).collect();
    assert_eq!(dotenv_keys(content), expected);
}

#[test]
fn dotenv_names_hold_no_shell_syntax() {
    assert_eq!(dotenv_keys("A;B=1\n$(x)=2\nA B=3\n'Q'=4\na-b=5\n\u{2014}=6"), Vec::<String>::new());
}

#[test]
fn dotenv_scripts() {
    assert_eq!(
        dotenv_script("A=1\nB=2\n"),
        Some(". \"$1\"; export A B; env -0".to_string())
    );
    assert_eq!(dotenv_script("# nothing\n"), None);
    assert_eq!(dotenv_script(""), None);
}

#[test]
fn dotenv_shell_call() {
    assert_eq!(shell_args("true", b"/w/.env"), bytes(&["-c", "true", "sh", "/w/.env"]));
}

#[test]
fn dotenv_outcomes() {
    assert_eq!(dotenv_path(b"/w"), b"/w/.env".to_vec());
    match dotenv_outcome(true, "exit status: 0", b"A=1\0") {
        Ok(map) => assert_eq!(map.get(b"A"), Some(b"1".to_vec())),
        Err(_) => panic!("refused"),
    }
    match dotenv_outcome(false, "exit status: 2", b"A=1\0") {
        Ok(_) => panic!("accepted"),
        Err(message) => assert_eq!(message, "failed to source .env (exit exit status: 2)"),
    }
}

fn process(ro_bind: &str, args: &str, upper: &str, lower: &str) -> ProcessSettings {
    ProcessSettings {
        sandbox_ro_bind: Some(ro_bind.to_string()),
        bwrap_args: Some(args.to_string()),
        verbose_upper: Some(upper.to_string()),
        verbose_lower: Some(lower.to_string()),
    }
}

#[test]
fn settings_of_the_process() {
    let s = read_settings(&None, process("/a,/b", "--x", "", "1"));
    assert_eq!(s.ro_bind, vec!["/a".to_string(), "/b".to_string()]);
    assert_eq!(s.bwrap_args, "--x");
    assert_eq!(s.process_bwrap_args, "--x");
    assert!(s.verbose);
    assert!(!read_settings(&None, process("", "", "", "")).verbose);
    assert!(read_settings(&None, process("", "", "1", "")).verbose);
}

#[test]
fn settings_of_a_dotenv_file() {
    let map = parse_null_separated_env(b"BWRAP_ARGS=--d\0VERBOSE=\0verbose=\0");
    let s = read_settings(&Some(map), process("/a", "--x", "1", "1"));
    assert_eq!(s.ro_bind, vec!["/a".to_string()]);
    assert_eq!(s.bwrap_args, "--d");
    assert_eq!(s.process_bwrap_args, "--x");
    assert!(!s.verbose);
}

#[test]
fn no_settings() {
    let none = ProcessSettings {
        sandbox_ro_bind: None,
        bwrap_args: None,
        verbose_upper: None,
        verbose_lower: None,
    };
    let s = read_settings(&None, none);
    assert!(s.ro_bind.is_empty() && s.bwrap_args.is_empty() && s.process_bwrap_args.is_empty() && !s.verbose);
}

#[test]
fn the_source_of_the_environment() {
    match env_source(&Some(parse_null_separated_env(b"A=1\0"))) {
        EnvSource::Dotenv(list) => assert_eq!(shown(&list), pairs(&[("A", "1")])),
        EnvSource::Process => panic!("not the dotenv file"),
    }
    match env_source(&Some(parse_null_separated_env(b""))) {
        EnvSource::Dotenv(list) => assert!(list.is_empty()),
        EnvSource::Process => panic!("not the dotenv file"),
    }
    assert!(matches!(env_source(&None), EnvSource::Process));
}

#[test]
fn a_dotenv_file_replaces_the_environment() {
    let own = vars(&[("OWN", "1")]);
    let map = Some(parse_null_separated_env(b"A=1\0"));
    assert_eq!(build_env_pass_through(&map, &own, &parent(&[])), bytes(&["--setenv", "A", "1"]));
    let none = Some(parse_null_separated_env(b""));
    assert_eq!(build_env_pass_through(&none, &own, &parent(&[])), bytes(&[]));
    assert_eq!(build_env_pass_through(&None, &own, &parent(&[])), bytes(&["--setenv", "OWN", "1"]));
}
