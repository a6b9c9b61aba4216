use sandbox_run::args::{
    format_args_display, join_text, parse_sandbox_ro_bind, quote, show_arg, show_line,
    split_args_by_lf, trace_call, trace_line,
};
use sandbox_run::pieces::{split_bytes, split_text};

fn strings(list: &[&str]) -> Vec<String> {
    list.iter().map(|s| s.to_string()).collect()
}

fn bytes(list: &[&str]) -> Vec<Vec<u8>> {
    list.iter().map(|s| s.as_bytes().to_vec()).collect()
}

#[test]
fn words_by_blank() {
    assert_eq!(split_args_by_lf("--bind /a  /b "), strings(&["--bind", "/a", "/b"]));
}

#[test]
fn words_by_line_feed_keep_blanks() {
    assert_eq!(
        split_args_by_lf("--setenv\nNAME\n\nsome value\n"),
        strings(&["--setenv", "NAME", "some value"])
    );
}

#[test]
fn no_words() {
    assert_eq!(split_args_by_lf(""), strings(&[]));
    assert_eq!(split_args_by_lf("   "), strings(&[]));
    assert_eq!(split_args_by_lf("\n"), strings(&[]));
}

#[test]
fn words_come_back_from_lines() {
    let list = strings(&["a b", "c", "-x"]);
    assert_eq!(split_args_by_lf(&join_text(&list, '\n')), list);
    // A line feed at the end makes one word of a single line.
    assert_eq!(split_args_by_lf("a b\n"), strings(&["a b"]));
    // One word with a blank is two words.
    assert_eq!(split_args_by_lf("a b"), strings(&["a", "b"]));
}

#[test]
fn words_come_back_from_blanks() {
    let list = strings(&["a", "\u{e9}t\u{e9}", "c,d"]);
    assert_eq!(split_args_by_lf(&join_text(&list, ' ')), list);
}

#[test]
fn items_between_commas() {
    assert_eq!(
        parse_sandbox_ro_bind("/opt,/srv/* ,,/x"),
        strings(&["/opt", "/srv/*", "/x"])
    );
    assert_eq!(
        parse_sandbox_ro_bind("/my dir,/opt\n/srv"),
        strings(&["/my dir", "/opt", "/srv"])
    );
    assert_eq!(parse_sandbox_ro_bind(""), strings(&[]));
    assert_eq!(parse_sandbox_ro_bind(",,"), strings(&[]));
}

#[test]
fn items_come_back_from_commas() {
    let list = strings(&["/a", "/b*", "c"]);
    assert_eq!(parse_sandbox_ro_bind(&join_text(&list, ',')), list);
}

#[test]
fn pieces_and_joining() {
    assert_eq!(split_text("a,,b,", ','), strings(&["a", "", "b", ""]));
    assert_eq!(split_text("", ','), strings(&[""]));
    assert_eq!(join_text(&split_text("a,,b,", ','), ','), "a,,b,");
    assert_eq!(split_bytes(b"x\0\0y", 0), bytes(&["x", "", "y"]));
}

#[test]
fn quoting() {
    assert_eq!(quote("a b"), "'a b'");
    assert_eq!(quote("ab"), "ab");
    assert_eq!(quote(""), "");
}

#[test]
fn shown_arguments() {
    assert_eq!(show_arg("/home/me/project/src/a b", "/home/me/project", "project"), "project/src/a b");
    assert_eq!(show_arg("/home/me/project", "/home/me/project", "project"), "/home/me/project");
    assert_eq!(show_arg("/home/me/projects/x", "/home/me/project", "project"), "/home/me/projects/x");
    assert_eq!(show_arg("two words", "/w", "w"), "'two words'");
}

#[test]
fn shown_lines() {
    assert_eq!(show_line(&strings(&["/w/run", "x y", "z"]), "/w", "w"), "w/run 'x y' z ");
    assert_eq!(show_line(&strings(&[]), "/w", "w"), " ");
}

#[test]
fn display_of_a_command() {
    assert_eq!(
        format_args_display(b"/usr/bin/python3", &bytes(&["-c", "print(1, 2)", "/w/x/a.py"]), b"/w/x"),
        "/usr/bin/python3 -c 'print(1, 2)' x/a.py "
    );
    // The root directory has no name of its own.
    assert_eq!(format_args_display(b"/bin/ls", &bytes(&["//x"]), b"/"), "/bin/ls /x ");
    // Bytes that are not UTF-8 are shown as replacement characters.
    assert_eq!(
        format_args_display(b"/bin/ls", &vec![vec![0x61, 0xff, 0x62]], b"/w"),
        "/bin/ls a\u{fffd}b "
    );
}

#[test]
fn trace_of_a_call() {
    assert_eq!(trace_line(&strings(&["--a", "b c"])), "+ bwrap --a 'b c'");
    assert_eq!(trace_call(&bytes(&["--setenv", "X", "1 2"])), "+ bwrap --setenv X '1 2'");
    assert_eq!(trace_call(&vec![vec![0xc3, 0x28]]), "+ bwrap \u{fffd}(");
}
