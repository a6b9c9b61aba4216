//! How the program was called.
use vstd::prelude::*;
use vstd::slice::slice_to_vec;
use vstd::string::*;

use crate::lookup::{
    bytes_view, command_candidates, command_search, law_first_other_program, law_no_other_program,
    outcome, resolve_command, resolve_symlink_bin, symlink_candidates, symlink_search, Answer,
    Lookup,
};
use crate::path::{file_name, file_name_spec, is_plain_name, DOT, SLASH};
use crate::pieces::byte_views;
use crate::text::{decode_lossy, lossy};

verus! {

/// What a call asks for.
pub enum Invocation {
    /// Through a symlink: run the binary that the link is named after.
    Symlink {
        base: Vec<u8>,
        user_args: Vec<Vec<u8>>,
    },
    /// Directly: run the given command.
    Direct {
        cmd: Vec<u8>,
        user_args: Vec<Vec<u8>>,
    },
    /// Directly, without a command: tell how the program named so is used.
    Usage(String),
}

/// The name of the program at `path`; `default` where the path names none.
pub open spec fn name_or(path: Seq<u8>, default: Seq<char>) -> Seq<char> {
    match file_name_spec(path) {
        Some(name) => lossy(name),
        None => default,
    }
}

/// Copies the byte strings from position `from` on.
fn copy_from(list: &Vec<Vec<u8>>, from: usize) -> (r: Vec<Vec<u8>>)
    requires
        from <= list@.len(),
    ensures
        byte_views(r@) == byte_views(list@).skip(from as int),
{
    let ghost all = byte_views(list@).skip(from as int);
    let mut r: Vec<Vec<u8>> = Vec::new();
    assert(byte_views(r@) =~= all.take(0));
    for i in from..list.len()
        invariant
            from <= list@.len(),
            all == byte_views(list@).skip(from as int),
            byte_views(r@) == all.take(i - from),
    {
        let ghost done = byte_views(r@);
        r.push(slice_to_vec(list[i].as_slice()));
        assert(byte_views(r@) =~= done.push(all[i - from]));
        assert(all.take(i + 1 - from) =~= all.take(i - from).push(all[i - from]));
    }
    assert(all.take(all.len() as int) =~= all);
    r
}

/// Reads a call from its arguments. The program is called through a symlink where its own path
/// is one; then all arguments are for the binary that it stands for. Otherwise the first argument
/// is the command, and the rest is for it.
pub fn read_invocation(args: &Vec<Vec<u8>>, is_symlink: bool) -> (r: Invocation)
    requires
        args@.len() > 0,
    ensures
        match r {
            Invocation::Symlink { base, user_args } => {
                &&& is_symlink
                &&& base@ == match file_name_spec(args@[0]@) {
                    Some(name) => name,
                    None => args@[0]@,
                }
                &&& byte_views(user_args@) == byte_views(args@).skip(1)
            },
            Invocation::Direct { cmd, user_args } => {
                &&& !is_symlink
                &&& args@.len() >= 2
                &&& cmd@ == args@[1]@
                &&& byte_views(user_args@) == byte_views(args@).skip(2)
            },
            Invocation::Usage(name) => {
                &&& !is_symlink
                &&& args@.len() < 2
                &&& name@ == name_or(args@[0]@, "sandbox-run"@)
            },
        },
{
    if is_symlink {
        let base = match file_name(&args[0]) {
            Some(name) => name,
            None => slice_to_vec(args[0].as_slice()),
        };
        Invocation::Symlink { base, user_args: copy_from(args, 1) }
    } else if args.len() < 2 {
        Invocation::Usage(program_name(&args[0]))
    } else {
        Invocation::Direct {
            cmd: slice_to_vec(args[1].as_slice()),
            user_args: copy_from(args, 2),
        }
    }
}

/// The name under which the program at `path` reports.
pub fn program_name(path: &[u8]) -> (r: String)
    ensures
        r@ == name_or(path@, "sandbox-run"@),
{
    match file_name(path) {
        Some(name) => decode_lossy(&name),
        None => "sandbox-run".to_string(),
    }
}

/// The end of a run that does not come to a sandbox: what is printed, and the exit code.
pub struct Exit {
    pub message: String,
    pub code: i32,
}

/// The end of a run on a host without `bwrap`, whatever was asked for; none where `bwrap` was
/// found.
pub fn missing_tool(found: &Option<Vec<u8>>) -> (r: Option<Exit>)
    ensures
        match r {
            Some(exit) => {
                &&& found is None
                &&& exit.message@ == "Error: Missing bwrap (apt install bubblewrap?)"@
                &&& exit.code == 127
            },
            None => found is Some,
        },
{
    match found {
        Some(_) => None,
        None => Some(
            Exit {
                message: "Error: Missing bwrap (apt install bubblewrap?)".to_string(),
                code: 127,
            },
        ),
    }
}

/// The end of a run with an error, reported by the program at `argv0`.
pub fn failure(argv0: &[u8], message: &str) -> (r: Exit)
    ensures
        r.message@ == name_or(argv0@, "sandbox-run"@) + ": "@ + message@,
        r.code == 1,
{
    Exit { message: error_report(&program_name(argv0), message), code: 1 }
}

/// How a run starts.
pub enum Start {
    /// Search for the binary, which gets these arguments.
    Search {
        lookup: Lookup,
        user_args: Vec<Vec<u8>>,
    },
    /// End.
    Stop(Exit),
}

/// Starts the run that a call asks for. `own` is the canonical path of the running program.
pub fn start(
    args: &Vec<Vec<u8>>,
    is_symlink: bool,
    path_var: &[u8],
    own: Option<Vec<u8>>,
) -> (r: Start)
    requires
        args@.len() > 0,
    ensures
        match r {
            Start::Search { lookup, user_args } => if is_symlink {
                &&& lookup@ == symlink_search(
                    args@[0]@,
                    name_or(args@[0]@, lossy(args@[0]@)),
                    path_var@,
                    bytes_view(own),
                )
                &&& byte_views(user_args@) == byte_views(args@).skip(1)
            } else {
                &&& args@.len() >= 2
                &&& lookup@ == command_search(args@[1]@, path_var@, bytes_view(own))
                &&& byte_views(user_args@) == byte_views(args@).skip(2)
            },
            Start::Stop(exit) => {
                &&& !is_symlink
                &&& args@.len() < 2
                &&& exit.message@ == "Usage: "@ + name_or(args@[0]@, "sandbox-run"@) + " ARG..."@
                &&& exit.code == 1
            },
        },
{
    match read_invocation(args, is_symlink) {
        Invocation::Symlink { base, user_args } => {
            let lookup = resolve_symlink_bin(&args[0], &base, path_var, own);
            Start::Search { lookup, user_args }
        },
        Invocation::Direct { cmd, user_args } => {
            let lookup = resolve_command(&cmd, path_var, own);
            Start::Search { lookup, user_args }
        },
        Invocation::Usage(name) => Start::Stop(Exit { message: usage(&name), code: 1 }),
    }
}

/// How the program of this name is used.
pub fn usage(name: &str) -> (r: String)
    ensures
        r@ == "Usage: "@ + name@ + " ARG..."@,
{
    let mut r = "Usage: ".to_string();
    r.append(name);
    r.append(" ARG...");
    r
}

/// The report of an error by the program of this name.
pub fn error_report(name: &str, message: &str) -> (r: String)
    ensures
        r@ == name@ + ": "@ + message@,
{
    let mut r = name.to_string();
    r.append(": ");
    r.append(message);
    r
}

/// The announcement of a command line.
pub fn announcement(cmdline: &str) -> (r: String)
    ensures
        r@ == "sandbox-run: exec bwrap [...] "@ + cmdline@,
{
    let mut r = "sandbox-run: exec bwrap [...] ".to_string();
    r.append(cmdline);
    r
}

/// A program is named by the text that the last name of its path shows, and by the default where
/// its path has none.
pub proof fn law_name_of_program(dir: Seq<u8>, name: Seq<u8>, default: Seq<char>)
    requires
        dir.len() > 0,
        is_plain_name(name),
    ensures
        name_or(name, default) == lossy(name),
        name_or(dir + seq![SLASH] + name, default) == lossy(name),
        name_or(dir + seq![SLASH], default) == name_or(dir, default),
        name_or(dir + seq![SLASH, DOT], default) == name_or(dir, default),
        name_or(dir + seq![SLASH, DOT, DOT], default) == default,
        name_or(seq![SLASH], default) == default,
        name_or(Seq::empty(), default) == default,
{
    crate::path::law_file_name(dir, name);
}

/// Every argument after the name of the command is forwarded to it, byte for byte and in order:
/// all but the program's own name where a symlink names the command, and all but the first two
/// otherwise. A run stops at once exactly where it was called directly and without a command.
pub proof fn law_arguments_forwarded(
    args: &Vec<Vec<u8>>,
    is_symlink: bool,
    path_var: &[u8],
    own: Option<Vec<u8>>,
    r: Start,
)
    requires
        args@.len() > 0,
        call_ensures(start, (args, is_symlink, path_var, own), r),
    ensures
        ({
            let skipped: int = if is_symlink {
                1
            } else {
                2
            };
            match r {
                Start::Search { lookup, user_args } => {
                    &&& user_args@.len() == args@.len() - skipped
                    &&& forall|i: int|
                        0 <= i < user_args@.len() ==> (#[trigger] user_args@[i])@ == args@[i
                            + skipped]@
                },
                Start::Stop(exit) => args@.len() == 1 && !is_symlink && exit.code == 1,
            }
        }),
{
    let views = byte_views(args@);
    match r {
        Start::Search { lookup, user_args } => {
            let skipped: int = if is_symlink {
                1
            } else {
                2
            };
            let forwarded = byte_views(user_args@);
            assert(forwarded == views.skip(skipped));
            assert(forwarded.len() == user_args@.len());
            assert forall|i: int| 0 <= i < user_args@.len() implies (#[trigger] user_args@[i])@
                == args@[i + skipped]@ by {
                assert(forwarded[i] == views[i + skipped]);
            }
        },
        Start::Stop(_) => {},
    }
}

/// A call through a symlink runs the first candidate of the link's name on the search path that can
/// be run and does not have the canonical path of the running program, and the link itself where
/// there is none.
pub proof fn law_symlink_runs(
    args: &Vec<Vec<u8>>,
    path_var: &[u8],
    own: Option<Vec<u8>>,
    r: Start,
    answers: spec_fn(Seq<u8>) -> Answer,
    i: int,
)
    requires
        args@.len() > 0,
        call_ensures(start, (args, true, path_var, own), r),
        r is Search,
    ensures
        ({
            let name = name_or(args@[0]@, lossy(args@[0]@));
            let candidates = symlink_candidates(path_var@, name);
            let found = outcome(r->lookup@, answers);
            &&& 0 <= i < candidates.len() && answers(candidates[i]) is Some && !(own is Some
                && answers(candidates[i]) == Some(Some(own->0@))) && (forall|k: int|
                0 <= k < i ==> answers(#[trigger] candidates[k]) is None || (own is Some && answers(
                    candidates[k],
                ) == Some(Some(own->0@)))) ==> found == Some(candidates[i])
            &&& (forall|k: int|
                0 <= k < candidates.len() ==> answers(#[trigger] candidates[k]) is None || (own
                    is Some && answers(candidates[k]) == Some(Some(own->0@)))) ==> found == Some(
                args@[0]@,
            )
        }),
{
    let s = r->lookup@;
    if 0 <= i < s.rest.len() && answers(s.rest[i]) is Some && !(own is Some && answers(s.rest[i])
        == Some(Some(own->0@))) && (forall|k: int|
        0 <= k < i ==> answers(#[trigger] s.rest[k]) is None || (own is Some && answers(s.rest[k])
            == Some(Some(own->0@)))) {
        law_first_other_program(s, answers, i);
    }
    if forall|k: int|
        0 <= k < s.rest.len() ==> answers(#[trigger] s.rest[k]) is None || (own is Some && answers(
            s.rest[k],
        ) == Some(Some(own->0@))) {
        law_no_other_program(s, answers);
    }
}

/// A direct call of a command without a slash runs its first candidate on the search path that can
/// be run and does not have the canonical path of the running program, and nothing where there is
/// none.
pub proof fn law_command_runs(
    args: &Vec<Vec<u8>>,
    path_var: &[u8],
    own: Option<Vec<u8>>,
    r: Start,
    answers: spec_fn(Seq<u8>) -> Answer,
    i: int,
)
    requires
        args@.len() > 1,
        !args@[1]@.contains(SLASH),
        call_ensures(start, (args, false, path_var, own), r),
        r is Search,
    ensures
        ({
            let candidates = command_candidates(path_var@, args@[1]@);
            let found = outcome(r->lookup@, answers);
            &&& 0 <= i < candidates.len() && answers(candidates[i]) is Some && !(own is Some
                && answers(candidates[i]) == Some(Some(own->0@))) && (forall|k: int|
                0 <= k < i ==> answers(#[trigger] candidates[k]) is None || (own is Some && answers(
                    candidates[k],
                ) == Some(Some(own->0@)))) ==> found == Some(candidates[i])
            &&& (forall|k: int|
                0 <= k < candidates.len() ==> answers(#[trigger] candidates[k]) is None || (own
                    is Some && answers(candidates[k]) == Some(Some(own->0@)))) ==> found is None
        }),
{
    let s = r->lookup@;
    if 0 <= i < s.rest.len() && answers(s.rest[i]) is Some && !(own is Some && answers(s.rest[i])
        == Some(Some(own->0@))) && (forall|k: int|
        0 <= k < i ==> answers(#[trigger] s.rest[k]) is None || (own is Some && answers(s.rest[k])
            == Some(Some(own->0@)))) {
        law_first_other_program(s, answers, i);
    }
    if forall|k: int|
        0 <= k < s.rest.len() ==> answers(#[trigger] s.rest[k]) is None || (own is Some && answers(
            s.rest[k],
        ) == Some(Some(own->0@))) {
        law_no_other_program(s, answers);
    }
}

/// A direct call of a command with a slash runs the file at that path, whatever the file system
/// says.
pub proof fn law_path_runs(
    args: &Vec<Vec<u8>>,
    path_var: &[u8],
    own: Option<Vec<u8>>,
    r: Start,
    answers: spec_fn(Seq<u8>) -> Answer,
)
    requires
        args@.len() > 1,
        args@[1]@.contains(SLASH),
        call_ensures(start, (args, false, path_var, own), r),
    ensures
        r is Search,
        outcome(r->lookup@, answers) == Some(args@[1]@),
{
}

} // verus!
