//! Dotenv files: which variables they assign, and the shell call that evaluates them.
use vstd::prelude::*;
use vstd::slice::slice_to_vec;
use vstd::string::*;
use vstd::utf8::*;

use crate::args::join_text;
use crate::environ::{block_entries, overlay, parse_null_separated_env, EnvMap};
use crate::path::{join_path, joined};
use crate::pieces::{byte_views, first_index, join, lemma_first_index_at};
use crate::text::{
    chars_of, is_alphanumeric, is_letter_or_number, law_lines_one_by_one, lines, lines_of, text_of,
    text_views,
};

verus! {

/// A character that can stand in the name of a variable.
pub open spec fn is_name_char(c: char) -> bool {
    is_alphanumeric(c) || c == '_'
}

pub open spec fn is_name(s: Seq<char>) -> bool {
    &&& s.len() > 0
    &&& forall|i: int| 0 <= i < s.len() ==> is_name_char(#[trigger] s[i])
}

/// The variable that a line assigns: what stands before its first equals sign, where that is a
/// name.
pub open spec fn assigned(line: Seq<char>) -> Option<Seq<char>> {
    let i = first_index(line, '=');
    if i < line.len() && is_name(line.take(i)) {
        Some(line.take(i))
    } else {
        None
    }
}

/// The variables that lines assign, in order.
pub open spec fn assigned_by(lines: Seq<Seq<char>>) -> Seq<Seq<char>>
    decreases lines.len(),
{
    if lines.len() == 0 {
        Seq::empty()
    } else {
        match assigned(lines.last()) {
            Some(key) => assigned_by(lines.drop_last()).push(key),
            None => assigned_by(lines.drop_last()),
        }
    }
}

/// The variables that a dotenv file assigns, in order.
pub open spec fn keys(content: Seq<char>) -> Seq<Seq<char>> {
    assigned_by(lines(content))
}

/// The shell script that evaluates the file given as its first argument, exports the variables
/// `keys`, and prints the environment with a zero byte after each entry.
pub open spec fn export_script(keys: Seq<Seq<char>>) -> Seq<char> {
    ". \"$1\"; export "@ + join(keys, ' ') + "; env -0"@
}

/// The variable that a line assigns.
fn assigned_key(line: &[char]) -> (r: Option<String>)
    ensures
        match r {
            Some(key) => assigned(line@) == Some(key@),
            None => assigned(line@) is None,
        },
{
    let mut i: usize = 0;
    while i < line.len() && line[i] != '='
        invariant
            i <= line@.len(),
            forall|k: int| 0 <= k < i ==> line@[k] != '=' && is_name_char(#[trigger] line@[k]),
        decreases line@.len() - i,
    {
        if !is_letter_or_number(line[i]) && line[i] != '_' {
            proof {
                let f = first_index(line@, '=');
                crate::pieces::law_first_index(line@, '=');
                if f <= i {
                    assert(line@[f] != '=');
                }
                assert(line@.take(f)[i as int] == line@[i as int]);
            }
            return None;
        }
        i = i + 1;
    }
    proof {
        lemma_first_index_at(line@, '=', i as int);
    }
    if i < line.len() && i > 0 {
        let key = text_of(&line[0..i]);
        assert(key@ =~= line@.take(i as int));
        Some(key)
    } else {
        None
    }
}

/// The variables that a dotenv file assigns.
pub fn dotenv_keys(content: &str) -> (r: Vec<String>)
    ensures
        text_views(r@) == keys(content@),
{
    let all = lines_of(content);
    let ghost views = lines(content@);
    let mut r: Vec<String> = Vec::new();
    assert(text_views(r@) =~= assigned_by(views.take(0)));
    for i in 0..all.len()
        invariant
            views == text_views(all@),
            text_views(r@) == assigned_by(views.take(i as int)),
    {
        let ghost done = text_views(r@);
        assert(views[i as int] == all@[i as int]@);
        assert(views.take(i + 1).drop_last() =~= views.take(i as int));
        let line = chars_of(&all[i]);
        match assigned_key(&line) {
            Some(key) => {
                let ghost added = key@;
                r.push(key);
                assert(text_views(r@) =~= done.push(added));
            },
            None => {},
        }
    }
    assert(views.take(views.len() as int) =~= views);
    r
}

/// The dotenv file of a directory.
pub fn dotenv_path(cwd: &[u8]) -> (r: Vec<u8>)
    ensures
        r@ == joined(cwd@, encode_utf8(".env"@)),
{
    join_path(cwd, ".env".as_bytes())
}

/// The shell script that evaluates a dotenv file; none where the file assigns no variable.
pub fn dotenv_script(content: &str) -> (r: Option<String>)
    ensures
        match r {
            Some(script) => keys(content@).len() > 0 && script@ == export_script(keys(content@)),
            None => keys(content@).len() == 0,
        },
{
    let all = dotenv_keys(content);
    assert(text_views(all@).len() == all@.len());
    if all.len() == 0 {
        return None;
    }
    let mut script = ". \"$1\"; export ".to_string();
    script.append(&join_text(&all, ' '));
    script.append("; env -0");
    Some(script)
}

/// The arguments with which the shell runs `script` on the file `path`.
pub fn shell_args(script: &str, path: &[u8]) -> (r: Vec<Vec<u8>>)
    ensures
        byte_views(r@) == seq![encode_utf8("-c"@), encode_utf8(script@), encode_utf8("sh"@), path@],
{
    let mut r: Vec<Vec<u8>> = Vec::new();
    r.push(slice_to_vec("-c".as_bytes()));
    r.push(slice_to_vec(script.as_bytes()));
    r.push(slice_to_vec("sh".as_bytes()));
    r.push(slice_to_vec(path));
    assert(byte_views(r@) =~= seq![
        encode_utf8("-c"@),
        encode_utf8(script@),
        encode_utf8("sh"@),
        path@,
    ]);
    r
}

/// What the shell call makes of a dotenv file: the environment that the shell printed, or a
/// message with the shell's status where it failed.
pub fn dotenv_outcome(success: bool, status: &str, stdout: &[u8]) -> (r: Result<EnvMap, String>)
    ensures
        match r {
            Ok(map) => success && map@ == overlay(block_entries(stdout@)) && map.pairs_enumerate(),
            Err(message) => !success && message@ == "failed to source .env (exit "@ + status@
                + ")"@,
        },
{
    if !success {
        let mut message = "failed to source .env (exit ".to_string();
        message.append(status);
        message.append(")");
        return Err(message);
    }
    Ok(parse_null_separated_env(stdout))
}

/// Whatever a dotenv file holds, each variable that is exported is a name: its ASCII characters
/// are letters, digits and underscores, so that the shell reads it as one word.
pub proof fn law_keys_are_names(content: Seq<char>, i: int)
    requires
        0 <= i < keys(content).len(),
    ensures
        is_name(keys(content)[i]),
        forall|c: char|
            (c as u32) < 128 && #[trigger] keys(content)[i].contains(c) ==> 'a' <= c <= 'z' || 'A'
                <= c <= 'Z' || '0' <= c <= '9' || c == '_',
{
    lemma_assigned_names(lines(content), i);
    let key = keys(content)[i];
    assert forall|c: char| (c as u32) < 128 && #[trigger] key.contains(c) implies 'a' <= c <= 'z'
        || 'A' <= c <= 'Z' || '0' <= c <= '9' || c == '_' by {
        let k = choose|k: int| 0 <= k < key.len() && key[k] == c;
        assert(is_name_char(key[k]));
    }
}

proof fn lemma_assigned_names(lines: Seq<Seq<char>>, i: int)
    requires
        0 <= i < assigned_by(lines).len(),
    ensures
        is_name(assigned_by(lines)[i]),
    decreases lines.len(),
{
    if i < assigned_by(lines.drop_last()).len() {
        lemma_assigned_names(lines.drop_last(), i);
    }
}

proof fn lemma_assigned_by_parts(a: Seq<Seq<char>>, b: Seq<Seq<char>>)
    ensures
        assigned_by(a + b) == assigned_by(a) + assigned_by(b),
    decreases b.len(),
{
    if b.len() == 0 {
        assert(a + b =~= a);
        assert(assigned_by(a) + assigned_by(b) =~= assigned_by(a));
    } else {
        lemma_assigned_by_parts(a, b.drop_last());
        assert((a + b).drop_last() =~= a + b.drop_last());
        assert(assigned_by(a + b) =~= assigned_by(a) + assigned_by(b));
    }
}

/// A dotenv file is read line by line.
pub proof fn law_keys_line_by_line(a: Seq<char>, b: Seq<char>)
    ensures
        keys(a.push('\n') + b) == keys(a.push('\n')) + keys(b),
        keys(Seq::<char>::empty()) == Seq::<Seq<char>>::empty(),
{
    law_lines_one_by_one(a, b);
    lemma_assigned_by_parts(lines(a.push('\n')), lines(b));
}

proof fn lemma_keys_of_line(line: Seq<char>)
    requires
        !line.contains('\n'),
    ensures
        line.len() > 0 ==> keys(line) == match assigned(line) {
            Some(key) => seq![key],
            None => Seq::empty(),
        },
        ({
            let ended = if line.len() > 0 && line.last() == '\r' {
                line.drop_last()
            } else {
                line
            };
            keys(line.push('\n')) == match assigned(ended) {
                Some(key) => seq![key],
                None => Seq::empty(),
            }
        }),
{
    law_lines_one_by_one(line, Seq::empty());
    assert forall|one: Seq<char>| #[trigger] assigned_by(seq![one]) == match assigned(one) {
        Some(key) => seq![key],
        None => Seq::empty(),
    } by {
        assert(seq![one].drop_last() =~= Seq::empty());
        assert(assigned_by(seq![one].drop_last()) =~= Seq::empty());
        assert(assigned_by(seq![one]) =~= match assigned(one) {
            Some(key) => seq![key],
            None => Seq::empty(),
        });
    }
}

proof fn lemma_assigned(name: Seq<char>, value: Seq<char>)
    requires
        !name.contains('='),
    ensures
        assigned(name.push('=') + value) == if is_name(name) {
            Some(name)
        } else {
            None
        },
{
    let line = name.push('=') + value;
    assert forall|k: int| 0 <= k < name.len() implies line[k] != '=' by {
        assert(name.contains(name[k]));
    }
    lemma_first_index_at(line, '=', name.len() as int);
    assert(line.take(name.len() as int) =~= name);
}

/// A line that assigns to a name is found, whatever the value is: with a line feed after it, with
/// a carriage return before that, or at the end of the file. A name is made of letters, digits and
/// underscores.
pub proof fn law_assignment_found(name: Seq<char>, value: Seq<char>)
    requires
        name.len() > 0,
        forall|i: int|
            0 <= i < name.len() ==> is_alphanumeric(#[trigger] name[i]) || name[i] == '_',
        !value.contains('\n'),
    ensures
        keys((name.push('=') + value).push('\n')) == seq![name],
        keys(name.push('=') + value) == seq![name],
{
    let line = name.push('=') + value;
    assert forall|k: int| 0 <= k < line.len() implies line[k] != '\n' by {
        if k < name.len() {
            assert(line[k] == name[k]);
        } else if k > name.len() {
            assert(value.contains(value[k - name.len() - 1]));
        }
    }
    assert(!name.contains('=')) by {
        if name.contains('=') {
            let k = choose|k: int| 0 <= k < name.len() && name[k] == '=';
            assert(is_alphanumeric(name[k]) || name[k] == '_');
        }
    }
    assert forall|i: int| 0 <= i < name.len() implies is_name_char(#[trigger] name[i]) by {}
    lemma_assigned(name, value);
    lemma_keys_of_line(line);
    if line.last() == '\r' {
        assert(line.drop_last() =~= name.push('=') + value.drop_last());
        lemma_assigned(name, value.drop_last());
    }
}

/// Every assignment of a dotenv file is found where it stands, whatever stands before and after
/// it and whatever its value is.
pub proof fn law_every_assignment_found(
    before: Seq<char>,
    name: Seq<char>,
    value: Seq<char>,
    after: Seq<char>,
)
    requires
        before.len() == 0 || before.last() == '\n',
        name.len() > 0,
        forall|i: int|
            0 <= i < name.len() ==> is_alphanumeric(#[trigger] name[i]) || name[i] == '_',
        !value.contains('\n'),
    ensures
        keys(before + name + seq!['='] + value + seq!['\n'] + after) == keys(before) + seq![name]
            + keys(after),
        keys(before + name + seq!['='] + value) == keys(before) + seq![name],
        keys(before + name + seq!['='] + value + seq!['\n'] + after).contains(name),
{
    let line = name.push('=') + value;
    let whole = before + name + seq!['='] + value + seq!['\n'] + after;
    let cut = before + name + seq!['='] + value;
    let empty = Seq::<char>::empty();
    law_assignment_found(name, value);
    law_keys_line_by_line(empty, empty);
    law_keys_line_by_line(line, after);
    let rest = line.push('\n') + after;
    assert(keys(rest) == seq![name] + keys(after));
    assert(whole =~= before + rest);
    assert(cut =~= before + line);
    if before.len() > 0 {
        let init = before.drop_last();
        assert(init.push('\n') =~= before);
        law_keys_line_by_line(init, rest);
        law_keys_line_by_line(init, line);
    } else {
        assert(before =~= empty);
        assert(whole =~= rest);
        assert(cut =~= line);
    }
    assert(keys(whole) =~= keys(before) + seq![name] + keys(after));
    assert(keys(cut) =~= keys(before) + seq![name]);
    assert(keys(whole)[keys(before).len() as int] == name);
}

/// A line without an equals sign, or with anything but a name before its first one, assigns
/// nothing.
pub proof fn law_other_lines_assign_nothing(line: Seq<char>, head: Seq<char>, tail: Seq<char>)
    requires
        !line.contains('\n'),
        !line.contains('=') || {
            &&& line == head + seq!['='] + tail
            &&& !head.contains('=')
            &&& head.len() == 0 || exists|i: int|
                0 <= i < head.len() && !is_alphanumeric(#[trigger] head[i]) && head[i] != '_'
        },
    ensures
        keys(line) == Seq::<Seq<char>>::empty(),
        keys(line.push('\n')) == Seq::<Seq<char>>::empty(),
{
    let empty = Seq::<char>::empty();
    lemma_keys_of_line(line);
    law_keys_line_by_line(empty, empty);
    let short = line.drop_last();
    if !line.contains('=') {
        assert forall|k: int| 0 <= k < line.len() implies line[k] != '=' by {
            assert(line.contains(line[k]));
        }
        lemma_first_index_at(line, '=', line.len() as int);
        if line.len() > 0 {
            lemma_first_index_at(short, '=', short.len() as int);
        }
    } else {
        assert(line =~= head.push('=') + tail);
        assert(!is_name(head)) by {
            if head.len() > 0 {
                let i = choose|i: int|
                    0 <= i < head.len() && !is_alphanumeric(#[trigger] head[i]) && head[i] != '_';
                assert(!is_name_char(head[i]));
            }
        }
        lemma_assigned(head, tail);
        if line.last() == '\r' {
            assert(tail.len() > 0);
            assert(short =~= head.push('=') + tail.drop_last());
            lemma_assigned(head, tail.drop_last());
        }
    }
    if line.len() == 0 {
        assert(line =~= empty);
    }
}

/// The script ends with the call that prints the environment; before that it exports the names one
/// after another, each further one after a blank.
pub proof fn law_script(names: Seq<Seq<char>>, name: Seq<char>)
    ensures
        export_script(seq![name]) == ". \"$1\"; export "@ + name + "; env -0"@,
        names.len() > 0 ==> {
            let n = export_script(names).len() - "; env -0"@.len();
            &&& export_script(names).skip(n) == "; env -0"@
            &&& export_script(names.push(name)) == export_script(names).take(n) + seq![' '] + name
                + "; env -0"@
        },
{
    crate::pieces::law_join_grows(names, name, ' ');
    if names.len() > 0 {
        let n = export_script(names).len() - "; env -0"@.len();
        let head = ". \"$1\"; export "@ + join(names, ' ');
        assert(export_script(names).take(n) =~= head);
        assert(export_script(names).skip(n) =~= "; env -0"@);
        assert(export_script(names.push(name)) =~= head + seq![' '] + name + "; env -0"@);
    }
}

/// The environment is taken from the shell exactly where the shell succeeded, and has every entry
/// that was printed last for its key.
pub proof fn law_environment_of_shell(
    success: bool,
    status: &str,
    stdout: &[u8],
    r: Result<EnvMap, String>,
    i: int,
)
    requires
        call_ensures(dotenv_outcome, (success, status, stdout), r),
    ensures
        r is Ok <==> success,
        r is Ok && 0 <= i < block_entries(stdout@).len() && (forall|k: int|
            i < k < block_entries(stdout@).len() ==> (#[trigger] block_entries(stdout@)[k]).0
                != block_entries(stdout@)[i].0) ==> {
            &&& r->Ok_0@.contains_key(block_entries(stdout@)[i].0)
            &&& r->Ok_0@[block_entries(stdout@)[i].0] == block_entries(stdout@)[i].1
        },
        r is Err ==> r->Err_0@ == "failed to source .env (exit "@ + status@ + ")"@,
{
    let pairs = block_entries(stdout@);
    if r is Ok && 0 <= i < pairs.len() && (forall|k: int|
        i < k < pairs.len() ==> (#[trigger] pairs[k]).0 != pairs[i].0) {
        crate::environ::law_last_value_counts(pairs, i);
    }
}

} // verus!
