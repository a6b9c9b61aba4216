use sandbox_run::decimal::{decimal_text, parse_number};
use sandbox_run::status::{parse_status, Identity, StatusError};
use sandbox_run::text::{chars_of, is_white_space, lines_of};

const STATUS: &str = "Name:\tcat\nPid:\t42\nPPid:\t41\nUid:\t1000\t1001\t1002\t1003\nGid:\t100\t101\t102\t103\n";

fn number(s: &str) -> Option<u32> {
    parse_number(&chars_of(s))
}

#[test]
fn identity_of_a_process() {
    assert_eq!(parse_status(STATUS), Ok(Identity { uid: 1000, gid: 100, ppid: 41 }));
}

#[test]
fn identity_that_is_missing() {
    assert_eq!(parse_status(""), Err(StatusError::Uid));
    assert_eq!(parse_status("Gid:\t1\nPPid:\t1\n"), Err(StatusError::Uid));
    assert_eq!(parse_status("Uid:\t1\nPPid:\t1\n"), Err(StatusError::Gid));
    assert_eq!(parse_status("Uid:\t1\nGid:\t1\n"), Err(StatusError::Ppid));
    assert_eq!(parse_status("Uid:\nGid:\t1\nPPid:\t1\n"), Err(StatusError::Uid));
    assert_eq!(parse_status("Uid:\t-1\nGid:\t1\nPPid:\t1\n"), Err(StatusError::Uid));
    assert_eq!(parse_status(" Uid:\t1\nGid:\t1\nPPid:\t1\n"), Err(StatusError::Uid));
}

#[test]
fn the_last_line_counts() {
    assert_eq!(
        parse_status("Uid: 1\nUid: 2\nGid: 3\nPPid: 4"),
        Ok(Identity { uid: 2, gid: 3, ppid: 4 })
    );
    assert_eq!(parse_status("Uid: 1\nUid: x\nGid: 3\nPPid: 4"), Err(StatusError::Uid));
}

#[test]
fn white_space_beyond_ascii() {
    assert_eq!(
        parse_status("Uid:\u{2003}7\u{a0}8\nGid:\t3\r\nPPid:\u{3000}4"),
        Ok(Identity { uid: 7, gid: 3, ppid: 4 })
    );
    // A zero-width space is no white space.
    assert_eq!(parse_status("Uid:\u{200b}7\nGid: 3\nPPid: 4"), Err(StatusError::Uid));
}

#[test]
fn messages() {
    assert_eq!(StatusError::Uid.message(), "failed to read uid from /proc/self/status");
    assert_eq!(StatusError::Gid.message(), "failed to read gid from /proc/self/status");
    assert_eq!(StatusError::Ppid.message(), "failed to read ppid from /proc/self/status");
}

#[test]
fn numbers_agree_with_the_standard_library() {
    for s in ["", "0", "7", "007", "+5", "+", "-5", "-0", "++1", "4294967295", "4294967296", "99999999999999999999", "1a", "1_0", " 1", "\u{661}"] {
        assert_eq!(number(s), s.parse::<u32>().ok(), "{}", s);
    }
}

#[test]
fn numbers_are_read_back() {
    for n in [0u32, 9, 10, 99, 100, 65534, 4294967295] {
        assert_eq!(decimal_text(n), n.to_string());
        assert_eq!(number(&decimal_text(n)), Some(n));
    }
}

#[test]
fn lines_agree_with_the_standard_library() {
    for s in ["", "a", "a\n", "a\nb", "a\r\nb\r\n", "\n\n", "a\r", "a\r\r\n", "\r\n", "a\n\r"] {
        let expected: Vec<String> = s.lines().map(|l| l.to_string()).collect();
        assert_eq!(lines_of(s), expected, "{:?}", s);
    }
}

#[test]
fn white_space_agrees_with_the_standard_library() {
    for code in 0..=0x10ffffu32 {
        if let Some(c) = char::from_u32(code) {
            assert_eq!(is_white_space(c), c.is_whitespace(), "{:x}", code);
        }
    }
}
