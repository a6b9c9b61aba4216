//! Finding the binary to run: a search over candidate paths, one probe of the file system at a
//! time.
use vstd::prelude::*;
use vstd::slice::slice_to_vec;
use vstd::string::*;
use vstd::utf8::*;

use crate::path::{join_path, joined, DOT, SLASH};
use crate::pieces::{byte_views, bytes_eq, contains_byte, join, split, split_bytes};
use crate::text::{decode_lossy, lossy};

verus! {

pub const COLON: u8 = 0x3a;

/// What the file system says of a candidate.
pub enum Probe {
    /// It cannot be run.
    Unfit,
    /// It can be run; with its canonical path, where that could be had.
    Runnable(Option<Vec<u8>>),
}

/// What a probe says: nothing of a candidate that cannot be run, and otherwise the canonical
/// path, if any.
pub type Answer = Option<Option<Seq<u8>>>;

pub open spec fn bytes_view(b: Option<Vec<u8>>) -> Option<Seq<u8>> {
    match b {
        Some(b) => Some(b@),
        None => None,
    }
}

impl View for Probe {
    type V = Answer;

    open spec fn view(&self) -> Answer {
        match self {
            Probe::Unfit => None,
            Probe::Runnable(target) => Some(bytes_view(*target)),
        }
    }
}

/// Whether a mode has one of the three execute permissions. A mode that cannot be read has none.
pub open spec fn executable(mode: Option<u32>) -> bool {
    match mode {
        Some(m) => m & 0o100 != 0 || m & 0o010 != 0 || m & 0o001 != 0,
        None => false,
    }
}

/// Whether a file can be run, by its mode.
pub fn is_executable(mode: Option<u32>) -> (r: bool)
    ensures
        r == executable(mode),
{
    match mode {
        Some(m) => {
            assert((m & 0o111 != 0) == (m & 0o100 != 0 || m & 0o010 != 0 || m & 0o001 != 0))
                by (bit_vector);
            m & 0o111 != 0
        },
        None => false,
    }
}

impl Probe {
    /// The probe of a candidate for a tool, which must be a file that can be run.
    pub fn of_tool(is_file: bool, mode: Option<u32>) -> (r: Probe)
        ensures
            r@ == if is_file && executable(mode) {
                Some(None::<Seq<u8>>)
            } else {
                None
            },
            match r {
                Probe::Unfit => !is_file || !executable(mode),
                Probe::Runnable(path) => is_file && executable(mode) && path is None,
            },
    {
        if is_file && is_executable(mode) {
            Probe::Runnable(None)
        } else {
            Probe::Unfit
        }
    }

    /// The probe of a candidate for the command, with its canonical path, if any.
    pub fn of_command(mode: Option<u32>, target: Option<Vec<u8>>) -> (r: Probe)
        ensures
            r@ == if executable(mode) {
                Some(bytes_view(target))
            } else {
                None
            },
            match r {
                Probe::Unfit => !executable(mode),
                Probe::Runnable(path) => executable(mode) && path == target,
            },
    {
        if is_executable(mode) {
            Probe::Runnable(target)
        } else {
            Probe::Unfit
        }
    }
}

/// Where a search stands.
pub struct Search {
    /// The path that was settled on.
    pub settled: Option<Seq<u8>>,
    /// The candidates that are left.
    pub rest: Seq<Seq<u8>>,
    /// The canonical path of the running program itself.
    pub own: Option<Seq<u8>>,
    /// The path to settle on where no candidate is left.
    pub fallback: Option<Seq<u8>>,
}

/// Whether a candidate is accepted: it can be run, and is not known to be the running program.
pub open spec fn accepted(answer: Answer, own: Option<Seq<u8>>) -> bool {
    match answer {
        None => false,
        Some(target) => target is None || target != own,
    }
}

/// The search after the answer on its first candidate.
pub open spec fn answered(s: Search, answer: Answer) -> Search {
    Search {
        settled: if accepted(answer, s.own) {
            Some(s.rest[0])
        } else {
            None
        },
        rest: s.rest.skip(1),
        own: s.own,
        fallback: s.fallback,
    }
}

/// What to do next in a search.
pub enum Action {
    /// Probe this candidate and report what it is.
    Probe(Vec<u8>),
    /// This is the binary.
    Found(Vec<u8>),
    /// There is none.
    Missing,
}

/// Whether an action is the one that a search calls for.
pub open spec fn called_for(s: Search, action: Action) -> bool {
    match s.settled {
        Some(path) => action matches Action::Found(p) && p@ == path,
        None => if s.rest.len() > 0 {
            action matches Action::Probe(p) && p@ == s.rest[0]
        } else {
            match s.fallback {
                Some(path) => action matches Action::Found(p) && p@ == path,
                None => action is Missing,
            }
        },
    }
}

/// A search for a binary.
pub struct Lookup {
    settled: Option<Vec<u8>>,
    candidates: Vec<Vec<u8>>,
    next: usize,
    own: Option<Vec<u8>>,
    fallback: Option<Vec<u8>>,
}

impl View for Lookup {
    type V = Search;

    closed spec fn view(&self) -> Search {
        Search {
            settled: bytes_view(self.settled),
            rest: byte_views(self.candidates@).skip(self.next as int),
            own: bytes_view(self.own),
            fallback: bytes_view(self.fallback),
        }
    }
}

impl Lookup {
    #[verifier::type_invariant]
    spec fn well_formed(self) -> bool {
        self.next <= self.candidates@.len()
    }

    /// A search over `candidates`.
    fn over(
        candidates: Vec<Vec<u8>>,
        own: Option<Vec<u8>>,
        fallback: Option<Vec<u8>>,
    ) -> (r: Lookup)
        ensures
            r@ == (Search {
                settled: None,
                rest: byte_views(candidates@),
                own: bytes_view(own),
                fallback: bytes_view(fallback),
            }),
    {
        let r = Lookup { settled: None, candidates, next: 0, own, fallback };
        assert(r@.rest =~= byte_views(candidates@));
        r
    }

    /// What to do next.
    pub fn action(&self) -> (r: Action)
        ensures
            called_for(self@, r),
    {
        proof {
            use_type_invariant(self);
        }
        if let Some(path) = &self.settled {
            return Action::Found(slice_to_vec(path.as_slice()));
        }
        if self.next < self.candidates.len() {
            assert(self@.rest[0] == self.candidates@[self.next as int]@);
            return Action::Probe(slice_to_vec(self.candidates[self.next].as_slice()));
        }
        match &self.fallback {
            Some(path) => Action::Found(slice_to_vec(path.as_slice())),
            None => Action::Missing,
        }
    }

    /// Takes the answer on the candidate that was to be probed.
    pub fn answer(&mut self, probe: Probe)
        requires
            old(self)@.settled is None,
            old(self)@.rest.len() > 0,
        ensures
            final(self)@ == answered(old(self)@, probe@),
            final(self)@.settled == match probe {
                Probe::Unfit => None,
                Probe::Runnable(None) => Some(old(self)@.rest[0]),
                Probe::Runnable(Some(target)) => if old(self)@.own == Some(target@) {
                    None
                } else {
                    Some(old(self)@.rest[0])
                },
            },
            final(self)@.rest == old(self)@.rest.skip(1),
            final(self)@.own == old(self)@.own,
            final(self)@.fallback == old(self)@.fallback,
    {
        proof {
            use_type_invariant(&*self);
        }
        let ghost before = self@;
        let accept = match &probe {
            Probe::Unfit => false,
            Probe::Runnable(None) => true,
            Probe::Runnable(Some(target)) => match &self.own {
                Some(own) => !bytes_eq(target, own),
                None => true,
            },
        };
        let i = self.next;
        assert(before.rest[0] == self.candidates@[i as int]@);
        assert(i < self.candidates.len());
        self.next = i + 1;
        if accept {
            self.settled = Some(slice_to_vec(self.candidates[i].as_slice()));
        }
        assert(self@.rest =~= before.rest.skip(1));
    }
}

/// What a search ends in when the probes answer as `answers` says.
pub open spec fn outcome(s: Search, answers: spec_fn(Seq<u8>) -> Answer) -> Option<Seq<u8>>
    decreases s.rest.len(),
{
    match s.settled {
        Some(path) => Some(path),
        None => if s.rest.len() == 0 {
            s.fallback
        } else {
            outcome(answered(s, answers(s.rest[0])), answers)
        },
    }
}

/// A search that is not settled ends in the first candidate that is accepted, and in its
/// fallback where none is.
pub proof fn law_first_accepted(s: Search, answers: spec_fn(Seq<u8>) -> Answer, i: int)
    requires
        s.settled is None,
        0 <= i <= s.rest.len(),
        forall|k: int| 0 <= k < i ==> !accepted(answers(#[trigger] s.rest[k]), s.own),
        i < s.rest.len() ==> accepted(answers(s.rest[i]), s.own),
    ensures
        outcome(s, answers) == if i < s.rest.len() {
            Some(s.rest[i])
        } else {
            s.fallback
        },
    decreases i,
{
    if s.rest.len() > 0 {
        let next = answered(s, answers(s.rest[0]));
        if i > 0 {
            assert forall|k: int| 0 <= k < i - 1 implies !accepted(
                answers(#[trigger] next.rest[k]),
                next.own,
            ) by {
                assert(next.rest[k] == s.rest[k + 1]);
            }
            law_first_accepted(next, answers, i - 1);
        }
    }
}

/// A search never ends in a candidate whose canonical path is that of the running program.
pub proof fn law_never_itself(s: Search, answers: spec_fn(Seq<u8>) -> Answer)
    requires
        s.settled is None,
        outcome(s, answers) != s.fallback,
    ensures
        outcome(s, answers) is Some,
        s.rest.contains(outcome(s, answers)->0),
        answers(outcome(s, answers)->0) is Some,
        s.own is Some ==> answers(outcome(s, answers)->0) != Some(s.own),
    decreases s.rest.len(),
{
    if s.rest.len() > 0 {
        let next = answered(s, answers(s.rest[0]));
        if next.settled is None {
            law_never_itself(next, answers);
            let k = choose|k: int| 0 <= k < next.rest.len() && next.rest[k] == outcome(s, answers)->0;
            assert(next.rest[k] == s.rest[k + 1]);
        } else {
            assert(outcome(next, answers) == Some(s.rest[0]));
        }
    }
}

/// The directories of a search path.
pub open spec fn directories(path_var: Seq<u8>) -> Seq<Seq<u8>> {
    split(path_var, COLON)
}

/// `name` in each directory of a search path.
pub open spec fn tool_candidates(path_var: Seq<u8>, name: Seq<u8>) -> Seq<Seq<u8>> {
    directories(path_var).map_values(|dir: Seq<u8>| joined(dir, name))
}

/// `cmd` in each directory of a search path, where an empty directory is the current one.
pub open spec fn command_candidates(path_var: Seq<u8>, cmd: Seq<u8>) -> Seq<Seq<u8>> {
    directories(path_var).map_values(
        |dir: Seq<u8>|
            joined(
                if dir.len() == 0 {
                    seq![DOT]
                } else {
                    dir
                },
                cmd,
            ),
    )
}

/// `name` below each directory of a search path.
pub open spec fn symlink_candidates(path_var: Seq<u8>, name: Seq<char>) -> Seq<Seq<u8>> {
    directories(path_var).map_values(|dir: Seq<u8>| dir.push(SLASH) + encode_utf8(name))
}

/// Starts the search for a tool on a search path.
pub fn which(name: &[u8], path_var: &[u8]) -> (r: Lookup)
    ensures
        r@ == (Search {
            settled: None,
            rest: tool_candidates(path_var@, name@),
            own: None,
            fallback: None,
        }),
{
    let dirs = split_bytes(path_var, COLON);
    let ghost all = tool_candidates(path_var@, name@);
    let mut candidates: Vec<Vec<u8>> = Vec::new();
    assert(byte_views(candidates@) =~= all.take(0));
    for i in 0..dirs.len()
        invariant
            byte_views(dirs@) == directories(path_var@),
            all == tool_candidates(path_var@, name@),
            byte_views(candidates@) == all.take(i as int),
    {
        let ghost done = byte_views(candidates@);
        assert(directories(path_var@)[i as int] == dirs@[i as int]@);
        candidates.push(join_path(&dirs[i], name));
        assert(byte_views(candidates@) =~= done.push(all[i as int]));
        assert(all.take(i + 1) =~= all.take(i as int).push(all[i as int]));
    }
    assert(all.take(all.len() as int) =~= all);
    Lookup::over(candidates, None, None)
}

/// The search for the binary that a symlink stands for, which ends in the link itself where
/// nothing else is found.
pub open spec fn symlink_search(
    argv0: Seq<u8>,
    name: Seq<char>,
    path_var: Seq<u8>,
    own: Option<Seq<u8>>,
) -> Search {
    Search {
        settled: None,
        rest: symlink_candidates(path_var, name),
        own,
        fallback: Some(argv0),
    }
}

/// Starts the search for the binary that a symlink called `name` stands for. `own` is the
/// canonical path of `argv0`.
pub fn symlink_lookup(
    argv0: &[u8],
    name: &str,
    path_var: &[u8],
    own: Option<Vec<u8>>,
) -> (r: Lookup)
    ensures
        r@ == symlink_search(argv0@, name@, path_var@, bytes_view(own)),
{
    let dirs = split_bytes(path_var, COLON);
    let ghost all = symlink_candidates(path_var@, name@);
    let mut candidates: Vec<Vec<u8>> = Vec::new();
    assert(byte_views(candidates@) =~= all.take(0));
    for i in 0..dirs.len()
        invariant
            byte_views(dirs@) == directories(path_var@),
            all == symlink_candidates(path_var@, name@),
            byte_views(candidates@) == all.take(i as int),
    {
        let ghost done = byte_views(candidates@);
        assert(directories(path_var@)[i as int] == dirs@[i as int]@);
        let mut candidate = slice_to_vec(dirs[i].as_slice());
        candidate.push(SLASH);
        let mut tail = slice_to_vec(name.as_bytes());
        candidate.append(&mut tail);
        assert(candidate@ == all[i as int]);
        candidates.push(candidate);
        assert(byte_views(candidates@) =~= done.push(all[i as int]));
        assert(all.take(i + 1) =~= all.take(i as int).push(all[i as int]));
    }
    assert(all.take(all.len() as int) =~= all);
    Lookup::over(candidates, own, Some(slice_to_vec(argv0)))
}

/// Starts the search for the binary that a symlink with the file name `base` stands for.
pub fn resolve_symlink_bin(
    argv0: &[u8],
    base: &[u8],
    path_var: &[u8],
    own: Option<Vec<u8>>,
) -> (r: Lookup)
    ensures
        r@ == symlink_search(argv0@, lossy(base@), path_var@, bytes_view(own)),
{
    symlink_lookup(argv0, &decode_lossy(base), path_var, own)
}

/// The search for a command: a command that holds a slash is a path already, any other one is
/// looked for on the search path.
pub open spec fn command_search(cmd: Seq<u8>, path_var: Seq<u8>, own: Option<Seq<u8>>) -> Search {
    if cmd.contains(SLASH) {
        Search { settled: Some(cmd), rest: Seq::empty(), own, fallback: None }
    } else {
        Search { settled: None, rest: command_candidates(path_var, cmd), own, fallback: None }
    }
}

/// Starts the search for a command. `own` is the canonical path of the running program, which
/// is passed over.
pub fn resolve_command(cmd: &[u8], path_var: &[u8], own: Option<Vec<u8>>) -> (r: Lookup)
    ensures
        r@ == command_search(cmd@, path_var@, bytes_view(own)),
{
    if contains_byte(cmd, SLASH) {
        let r = Lookup {
            settled: Some(slice_to_vec(cmd)),
            candidates: Vec::new(),
            next: 0,
            own,
            fallback: None,
        };
        assert(r@.rest =~= Seq::empty());
        return r;
    }
    let dirs = split_bytes(path_var, COLON);
    let here: Vec<u8> = vec![DOT];
    assert(here@ =~= seq![DOT]);
    let ghost all = command_candidates(path_var@, cmd@);
    let mut candidates: Vec<Vec<u8>> = Vec::new();
    assert(byte_views(candidates@) =~= all.take(0));
    for i in 0..dirs.len()
        invariant
            byte_views(dirs@) == directories(path_var@),
            all == command_candidates(path_var@, cmd@),
            here@ == seq![DOT],
            byte_views(candidates@) == all.take(i as int),
    {
        let ghost done = byte_views(candidates@);
        assert(directories(path_var@)[i as int] == dirs@[i as int]@);
        let dir = if dirs[i].len() == 0 {
            &here
        } else {
            &dirs[i]
        };
        candidates.push(join_path(dir, cmd));
        assert(byte_views(candidates@) =~= done.push(all[i as int]));
        assert(all.take(i + 1) =~= all.take(i as int).push(all[i as int]));
    }
    assert(all.take(all.len() as int) =~= all);
    Lookup::over(candidates, own, None)
}

/// The canonical path by which the running program knows itself. Called through a symlink, it is
/// that of the link. Otherwise it is that of the program's file: the name under which it was
/// called may be that of another file in the working directory, and serves only where the
/// program's file is not known.
pub fn own_identity(
    is_symlink: bool,
    argv0_target: Option<Vec<u8>>,
    exe_target: Option<Vec<u8>>,
) -> (r: Option<Vec<u8>>)
    ensures
        bytes_view(r) == if is_symlink || exe_target is None {
            bytes_view(argv0_target)
        } else {
            bytes_view(exe_target)
        },
{
    if is_symlink || exe_target.is_none() {
        argv0_target
    } else {
        exe_target
    }
}

/// The search path: what `PATH` holds, or the usual directories where it is not set.
pub fn search_path(var: Option<Vec<u8>>) -> (r: Vec<u8>)
    ensures
        r@ == match var {
            Some(path) => path@,
            None => encode_utf8("/usr/local/bin:/usr/bin:/bin"@),
        },
{
    match var {
        Some(path) => path,
        None => slice_to_vec("/usr/local/bin:/usr/bin:/bin".as_bytes()),
    }
}

/// The message on a command that was not found.
pub fn command_not_found(cmd: &[u8]) -> (r: String)
    ensures
        r@ == lossy(cmd@) + ": command not found"@,
{
    let mut r = decode_lossy(cmd);
    r.append(": command not found");
    r
}

/// A search with a fallback always ends in a path.
pub proof fn law_fallback_search_ends(s: Search, answers: spec_fn(Seq<u8>) -> Answer)
    requires
        s.fallback is Some,
    ensures
        outcome(s, answers) is Some,
    decreases s.rest.len(),
{
    if s.settled is None && s.rest.len() > 0 {
        law_fallback_search_ends(answered(s, answers(s.rest[0])), answers);
    }
}

/// The binary of a symlink is the link itself, or a file of the link's name below a directory of
/// the search path which can be run and is not the running program.
pub proof fn law_symlink_found(
    argv0: Seq<u8>,
    name: Seq<char>,
    path_var: Seq<u8>,
    own: Option<Seq<u8>>,
    answers: spec_fn(Seq<u8>) -> Answer,
)
    ensures
        outcome(symlink_search(argv0, name, path_var, own), answers) is Some,
        ({
            let path = outcome(symlink_search(argv0, name, path_var, own), answers)->0;
            ||| path == argv0
            ||| {
                &&& symlink_candidates(path_var, name).contains(path)
                &&& answers(path) is Some
                &&& own is Some ==> answers(path) != Some(own)
            }
        }),
{
    let s = symlink_search(argv0, name, path_var, own);
    law_fallback_search_ends(s, answers);
    if outcome(s, answers) != s.fallback {
        law_never_itself(s, answers);
    }
}

/// A command that holds a slash is what runs, whatever the file system says.
pub proof fn law_command_with_slash(
    cmd: Seq<u8>,
    path_var: Seq<u8>,
    own: Option<Seq<u8>>,
    answers: spec_fn(Seq<u8>) -> Answer,
)
    requires
        cmd.contains(SLASH),
    ensures
        outcome(command_search(cmd, path_var, own), answers) == Some(cmd),
{
}

/// A command without a slash is found only in a directory of the search path, where it can be
/// run, and never as the running program itself.
pub proof fn law_command_found(
    cmd: Seq<u8>,
    path_var: Seq<u8>,
    own: Option<Seq<u8>>,
    answers: spec_fn(Seq<u8>) -> Answer,
)
    requires
        !cmd.contains(SLASH),
        outcome(command_search(cmd, path_var, own), answers) is Some,
    ensures
        ({
            let path = outcome(command_search(cmd, path_var, own), answers)->0;
            &&& command_candidates(path_var, cmd).contains(path)
            &&& answers(path) is Some
            &&& own is Some ==> answers(path) != Some(own)
        }),
{
    law_never_itself(command_search(cmd, path_var, own), answers);
}

/// A candidate is passed over only where it cannot be run or has exactly the canonical path of the
/// running program; the first one that is neither is what a search ends in.
pub proof fn law_first_other_program(s: Search, answers: spec_fn(Seq<u8>) -> Answer, i: int)
    requires
        s.settled is None,
        0 <= i < s.rest.len(),
        answers(s.rest[i]) is Some,
        answers(s.rest[i])->0 is None || answers(s.rest[i])->0 != s.own,
        forall|k: int|
            0 <= k < i ==> (answers(#[trigger] s.rest[k]) is None || (s.own is Some && answers(
                s.rest[k],
            ) == Some(s.own))),
    ensures
        outcome(s, answers) == Some(s.rest[i]),
{
    law_first_accepted(s, answers, i);
}

/// Where every candidate cannot be run or is the running program, a search ends in its fallback.
pub proof fn law_no_other_program(s: Search, answers: spec_fn(Seq<u8>) -> Answer)
    requires
        s.settled is None,
        forall|k: int|
            0 <= k < s.rest.len() ==> (answers(#[trigger] s.rest[k]) is None || (s.own is Some
                && answers(s.rest[k]) == Some(s.own))),
    ensures
        outcome(s, answers) == s.fallback,
{
    law_first_accepted(s, answers, s.rest.len() as int);
}

/// What to do next is a step towards what the search ends in.
pub proof fn law_action_leads_on(
    s: Search,
    action: Action,
    answers: spec_fn(Seq<u8>) -> Answer,
)
    requires
        called_for(s, action),
    ensures
        match action {
            Action::Found(path) => outcome(s, answers) == Some(path@),
            Action::Missing => outcome(s, answers) is None,
            Action::Probe(path) => {
                &&& s.settled is None
                &&& s.rest.len() > 0
                &&& path@ == s.rest[0]
                &&& outcome(s, answers) == outcome(answered(s, answers(path@)), answers)
                &&& answered(s, answers(path@)).rest.len() < s.rest.len()
            },
        },
{
}

/// A file can be run where one of the three lowest octal digits of its mode, each for its own
/// class of users, is odd.
pub proof fn law_executable(mode: u32)
    ensures
        executable(Some(mode)) <==> mode % 2 == 1 || (mode / 8) % 2 == 1 || (mode / 64) % 2 == 1,
        !executable(None),
{
    assert((mode & 0o001 != 0) == (mode % 2 == 1)) by (bit_vector);
    assert((mode & 0o010 != 0) == ((mode / 8) % 2 == 1)) by (bit_vector);
    assert((mode & 0o100 != 0) == ((mode / 64) % 2 == 1)) by (bit_vector);
}

/// A path that is there is viewed as its bytes.
pub proof fn law_bytes_view(bytes: Vec<u8>)
    ensures
        bytes_view(Some(bytes)) == Some(bytes@),
        bytes_view(None) is None,
{
}

/// The candidates on a search path: one for each directory between the colons, in their order.
/// Below an empty directory, a tool is named as it is, a command is in the current directory, and
/// what a symlink stands for is in the root directory.
pub proof fn law_candidates(dirs: Seq<Seq<u8>>, name: Seq<u8>, text: Seq<char>, i: int)
    requires
        forall|k: int| 0 <= k < dirs.len() ==> !(#[trigger] dirs[k]).contains(COLON),
        name.len() == 0 || name[0] != SLASH,
        0 <= i < dirs.len(),
    ensures
        ({
            let path_var = join(dirs, COLON);
            let below = if dirs[i].last() == SLASH {
                dirs[i] + name
            } else {
                dirs[i] + seq![SLASH] + name
            };
            &&& tool_candidates(path_var, name).len() == dirs.len()
            &&& command_candidates(path_var, name).len() == dirs.len()
            &&& symlink_candidates(path_var, text).len() == dirs.len()
            &&& tool_candidates(path_var, name)[i] == if dirs[i].len() == 0 {
                name
            } else {
                below
            }
            &&& command_candidates(path_var, name)[i] == if dirs[i].len() == 0 {
                seq![DOT, SLASH] + name
            } else {
                below
            }
            &&& symlink_candidates(path_var, text)[i] == dirs[i] + seq![SLASH] + encode_utf8(text)
        }),
{
    let path_var = join(dirs, COLON);
    crate::pieces::law_split_join(dirs, COLON);
    let dir = dirs[i];
    assert(dir.push(SLASH) =~= dir + seq![SLASH]);
    assert(seq![DOT].push(SLASH) =~= seq![DOT, SLASH]);
    if dir.len() == 0 {
        assert(dir + name =~= name);
    }
}

/// A command without a slash is the first candidate on the search path that can be run and is not
/// the running program; there is none where every candidate fails.
pub proof fn law_command_resolved(
    cmd: Seq<u8>,
    path_var: Seq<u8>,
    own: Option<Seq<u8>>,
    answers: spec_fn(Seq<u8>) -> Answer,
    i: int,
)
    requires
        !cmd.contains(SLASH),
        0 <= i <= command_candidates(path_var, cmd).len(),
        forall|k: int|
            0 <= k < i ==> (answers(#[trigger] command_candidates(path_var, cmd)[k]) is None || (
            own is Some && answers(command_candidates(path_var, cmd)[k]) == Some(own))),
        i < command_candidates(path_var, cmd).len() ==> {
            &&& answers(command_candidates(path_var, cmd)[i]) is Some
            &&& answers(command_candidates(path_var, cmd)[i])->0 is None || answers(
                command_candidates(path_var, cmd)[i],
            )->0 != own
        },
    ensures
        outcome(command_search(cmd, path_var, own), answers) == if i < command_candidates(
            path_var,
            cmd,
        ).len() {
            Some(command_candidates(path_var, cmd)[i])
        } else {
            None
        },
{
    let s = command_search(cmd, path_var, own);
    if i < s.rest.len() {
        law_first_other_program(s, answers, i);
    } else {
        law_no_other_program(s, answers);
    }
}

/// A symlink stands for the first candidate on the search path that can be run and is not the
/// running program, and for itself where every candidate fails.
pub proof fn law_symlink_resolved(
    argv0: Seq<u8>,
    name: Seq<char>,
    path_var: Seq<u8>,
    own: Option<Seq<u8>>,
    answers: spec_fn(Seq<u8>) -> Answer,
    i: int,
)
    requires
        0 <= i <= symlink_candidates(path_var, name).len(),
        forall|k: int|
            0 <= k < i ==> (answers(#[trigger] symlink_candidates(path_var, name)[k]) is None || (
            own is Some && answers(symlink_candidates(path_var, name)[k]) == Some(own))),
        i < symlink_candidates(path_var, name).len() ==> {
            &&& answers(symlink_candidates(path_var, name)[i]) is Some
            &&& answers(symlink_candidates(path_var, name)[i])->0 is None || answers(
                symlink_candidates(path_var, name)[i],
            )->0 != own
        },
    ensures
        outcome(symlink_search(argv0, name, path_var, own), answers) == if i < symlink_candidates(
            path_var,
            name,
        ).len() {
            Some(symlink_candidates(path_var, name)[i])
        } else {
            Some(argv0)
        },
{
    let s = symlink_search(argv0, name, path_var, own);
    if i < s.rest.len() {
        law_first_other_program(s, answers, i);
    } else {
        law_no_other_program(s, answers);
    }
}

/// The search for a tool ends in the first candidate that is a file which can be run, and in
/// nothing where there is none.
pub proof fn law_tool_found(
    name: &[u8],
    path_var: &[u8],
    r: Lookup,
    answers: spec_fn(Seq<u8>) -> Answer,
    i: int,
)
    requires
        call_ensures(which, (name, path_var), r),
        0 <= i <= tool_candidates(path_var@, name@).len(),
        forall|k: int|
            0 <= k < i ==> answers(#[trigger] tool_candidates(path_var@, name@)[k]) is None,
        i < tool_candidates(path_var@, name@).len() ==> answers(
            tool_candidates(path_var@, name@)[i],
        ) is Some,
    ensures
        outcome(r@, answers) == if i < tool_candidates(path_var@, name@).len() {
            Some(tool_candidates(path_var@, name@)[i])
        } else {
            None
        },
{
    law_first_accepted(r@, answers, i);
}

/// The running program knows itself by the link that it was called through, and otherwise by its
/// own file where that is known.
pub proof fn law_own_identity(
    is_symlink: bool,
    argv0_target: Option<Vec<u8>>,
    exe_target: Option<Vec<u8>>,
    r: Option<Vec<u8>>,
)
    requires
        call_ensures(own_identity, (is_symlink, argv0_target, exe_target), r),
    ensures
        is_symlink ==> (r is Some <==> argv0_target is Some),
        is_symlink && argv0_target is Some ==> r->0@ == argv0_target->0@,
        !is_symlink && exe_target is Some ==> r is Some && r->0@ == exe_target->0@,
        !is_symlink && exe_target is None ==> (r is Some <==> argv0_target is Some),
        !is_symlink && exe_target is None && argv0_target is Some ==> r->0@ == argv0_target->0@,
{
}

} // verus!
