use sandbox_run::binds::{expand_glob, ro_bind_paths, rw_bind_paths, GlobOutcome};
use sandbox_run::order::{comes_before, sort_paths};
use sandbox_run::path::{file_name, join_path};

fn bytes(list: &[&str]) -> Vec<Vec<u8>> {
    list.iter().map(|s| s.as_bytes().to_vec()).collect()
}

fn found(list: &[&str]) -> GlobOutcome {
    GlobOutcome::Matches(list.iter().map(|s| Some(s.as_bytes().to_vec())).collect())
}

#[test]
fn file_names() {
    assert_eq!(file_name(b"/usr/bin/python"), Some(b"python".to_vec()));
    assert_eq!(file_name(b"python"), Some(b"python".to_vec()));
    assert_eq!(file_name(b"/usr/bin/"), Some(b"bin".to_vec()));
    assert_eq!(file_name(b"a/."), Some(b"a".to_vec()));
    assert_eq!(file_name(b"a/.."), None);
    assert_eq!(file_name(b"."), None);
    assert_eq!(file_name(b"/"), None);
    assert_eq!(file_name(b""), None);
    assert_eq!(file_name(b"..."), Some(b"...".to_vec()));
}

#[test]
fn file_names_agree_with_the_standard_library() {
    for p in ["", "/", "//", ".", "./", "./.", "..", "a", "a/", "a/b", "a//b", "/a/./b/.", "./a", "a/..", ".a"] {
        let expected = std::path::Path::new(p).file_name().map(|n| n.to_str().unwrap().as_bytes().to_vec());
        assert_eq!(file_name(p.as_bytes()), expected, "{}", p);
    }
}

#[test]
fn joining() {
    assert_eq!(join_path(b"/a", b"b"), b"/a/b".to_vec());
    assert_eq!(join_path(b"/a/", b"b"), b"/a/b".to_vec());
    assert_eq!(join_path(b"", b"b"), b"b".to_vec());
    assert_eq!(join_path(b"/a", b"/b"), b"/b".to_vec());
    assert_eq!(join_path(b"/a", b""), b"/a/".to_vec());
    assert_eq!(file_name(&join_path(b"/a", b"b")), Some(b"b".to_vec()));
}

#[test]
fn joining_agrees_with_the_standard_library() {
    for base in ["", "/", "a", "a/", "/x/y", "."] {
        for rest in ["", "b", "/b", "b/c", "."] {
            let expected = std::path::Path::new(base).join(rest);
            assert_eq!(join_path(base.as_bytes(), rest.as_bytes()), expected.to_str().unwrap().as_bytes().to_vec());
        }
    }
}

#[test]
fn path_order() {
    // By steps, not by bytes: the dash sorts before the slash as a byte.
    assert!(comes_before(b"/a/b", b"/a-b"));
    assert!(!comes_before(b"/a-b", b"/a/b"));
    assert!(comes_before(b"/a", b"/a/b"));
    assert!(!comes_before(b"/a/b", b"/a/b"));
    assert!(!comes_before(b"/a//b", b"/a/./b"));
    assert!(!comes_before(b"/a/./b", b"/a//b"));
    assert!(comes_before(b"/z", b"a"));
    assert!(comes_before(b"./a", b"../a"));
}

#[test]
fn order_agrees_with_the_standard_library() {
    let all = ["", "/", ".", "..", "a", "a/b", "a-b", "a.b", "./a", "../a", "/a", "/a/b", "/a-b", "a//b", "a/./b", "B", "aa"];
    for p in all {
        for q in all {
            let expected = std::path::Path::new(p) < std::path::Path::new(q);
            assert_eq!(comes_before(p.as_bytes(), q.as_bytes()), expected, "{} {}", p, q);
        }
    }
}

#[test]
fn sorting_is_stable() {
    assert_eq!(
        sort_paths(bytes(&["/b", "/a-b", "/a//b", "/a/b", "/a"])),
        bytes(&["/a", "/a//b", "/a/b", "/a-b", "/b"])
    );
    assert_eq!(sort_paths(bytes(&["/a/b", "/a//b"])), bytes(&["/a/b", "/a//b"]));
    assert_eq!(sort_paths(bytes(&[])), bytes(&[]));
}

#[test]
fn patterns_expand_to_sorted_matches() {
    assert_eq!(
        expand_glob("/opt/*", found(&["/opt/c", "/opt/a", "/opt/b"])),
        bytes(&["/opt/a", "/opt/b", "/opt/c"])
    );
}

#[test]
fn patterns_without_matches_stand_for_themselves() {
    assert_eq!(expand_glob("/opt/*", found(&[])), bytes(&["/opt/*"]));
    assert_eq!(expand_glob("/opt/[", GlobOutcome::BadPattern), bytes(&["/opt/["]));
    assert_eq!(expand_glob("/x", GlobOutcome::Matches(vec![None, None])), bytes(&["/x"]));
}

#[test]
fn unreadable_matches_are_passed_over() {
    assert_eq!(
        expand_glob("/x/*", GlobOutcome::Matches(vec![Some(b"/x/b".to_vec()), None, Some(b"/x/a".to_vec())])),
        bytes(&["/x/a", "/x/b"])
    );
}

#[test]
fn matches_of_the_file_system() {
    let outcome = |pattern: &str| match glob::glob(pattern) {
        Ok(paths) => GlobOutcome::Matches(
            paths.map(|p| p.ok().map(|p| p.into_os_string().into_encoded_bytes())).collect(),
        ),
        Err(_) => GlobOutcome::BadPattern,
    };
    assert_eq!(expand_glob("/***", outcome("/***")), bytes(&["/***"]));
    assert_eq!(expand_glob("/no-such-dir/*", outcome("/no-such-dir/*")), bytes(&["/no-such-dir/*"]));
    assert_eq!(expand_glob("/", outcome("/")), bytes(&["/"]));
}

#[test]
fn paths_to_bind() {
    let paths = ro_bind_paths(vec![bytes(&["/b", "/c"]), bytes(&["/a"])]);
    assert_eq!(paths[0..3].to_vec(), bytes(&["/b", "/c", "/a"]));
    assert_eq!(paths.len(), 18);
    assert_eq!(paths[3], b"/etc/alternatives".to_vec());
    assert_eq!(paths[16], b"/run/dbus/system_bus_socket".to_vec());
    assert_eq!(paths[17], b"/usr".to_vec());
    assert_eq!(rw_bind_paths(), bytes(&["/etc/ld.so.conf.d"]));
}
