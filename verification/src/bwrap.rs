//! The argument vector of `bwrap`, and the other calls around it.
use vstd::prelude::*;
use vstd::slice::slice_to_vec;
use vstd::string::*;
use vstd::utf8::*;

use crate::args::{lossy_each, split_args_by_lf, trace_call, traced, words};
use crate::binds::{oss, push_words};
use crate::decimal::{decimal, decimal_text};
use crate::environ::{caller_vars, var_views, EnvMap, EnvVar, NameSet, Named};
use crate::passthrough::{
    build_env_pass_through, lacks, law_new_variable_set, law_stopped_names_do_not_matter, passing,
    sets_at, setenv_reversed, without,
};
use crate::path::{join_path, joined, law_joined, SLASH};
use crate::pieces::{byte_views, join};
use crate::settings::{
    dotenv_view, law_verbose_is_apart, setting, settings_of, verbose_names, without_verbose,
    ProcessValues, Settings,
};
use crate::text::{decode_lossy, lossy, text_views};

verus! {

/// A path to bind, and whether the host has it.
pub struct Bind {
    pub path: Vec<u8>,
    pub exists: bool,
}

/// The paths that the host has, in order.
pub open spec fn present(binds: Seq<Bind>) -> Seq<Seq<u8>>
    decreases binds.len(),
{
    if binds.len() == 0 {
        Seq::empty()
    } else if binds.last().exists {
        present(binds.drop_last()).push(binds.last().path@)
    } else {
        present(binds.drop_last())
    }
}

/// Arguments that mount each path where it stands on the host.
pub open spec fn bind_each(flag: Seq<u8>, paths: Seq<Seq<u8>>) -> Seq<Seq<u8>>
    decreases paths.len(),
{
    if paths.len() == 0 {
        Seq::empty()
    } else {
        bind_each(flag, paths.drop_last()) + seq![flag, paths.last(), paths.last()]
    }
}

/// What a sandbox is made from.
pub struct Sandbox {
    /// The binary to run.
    pub bin: Vec<u8>,
    /// Its arguments.
    pub user_args: Vec<Vec<u8>>,
    /// The working directory.
    pub cwd: Vec<u8>,
    /// The user who runs it.
    pub uid: u32,
    /// Paths to bind for reading.
    pub ro_binds: Vec<Bind>,
    /// Paths to bind for writing.
    pub rw_binds: Vec<Bind>,
    /// The environment that a dotenv file leaves behind, where there is one.
    pub dotenv: Option<EnvMap>,
    /// The environment of the process, which counts where there is no dotenv environment.
    pub process_vars: Vec<EnvVar>,
    /// The names in the environment of the caller's parent.
    pub parent: NameSet,
    /// What the user asks for.
    pub settings: Settings,
}

/// The home directory inside the sandbox.
pub open spec fn home(cwd: Seq<u8>) -> Seq<u8> {
    joined(cwd, encode_utf8(".sandbox-home"@))
}

/// The directory for temporary files inside the sandbox.
pub open spec fn tmp(cwd: Seq<u8>) -> Seq<u8> {
    joined(home(cwd), encode_utf8("tmp"@))
}

/// The user database of the sandbox.
pub open spec fn passwd(cwd: Seq<u8>) -> Seq<u8> {
    joined(tmp(cwd), encode_utf8(".passwd"@))
}

/// The group database of the sandbox.
pub open spec fn group(cwd: Seq<u8>) -> Seq<u8> {
    joined(tmp(cwd), encode_utf8(".group"@))
}

/// The runtime directory of a user.
pub open spec fn run_user(uid: u32) -> Seq<char> {
    "/run/user/"@ + decimal(uid as nat)
}

pub fn home_dir(cwd: &[u8]) -> (r: Vec<u8>)
    ensures
        r@ == home(cwd@),
{
    join_path(cwd, ".sandbox-home".as_bytes())
}

pub fn tmp_dir(cwd: &[u8]) -> (r: Vec<u8>)
    ensures
        r@ == tmp(cwd@),
{
    join_path(&home_dir(cwd), "tmp".as_bytes())
}

pub fn passwd_file(cwd: &[u8]) -> (r: Vec<u8>)
    ensures
        r@ == passwd(cwd@),
{
    join_path(&tmp_dir(cwd), ".passwd".as_bytes())
}

pub fn group_file(cwd: &[u8]) -> (r: Vec<u8>)
    ensures
        r@ == group(cwd@),
{
    join_path(&tmp_dir(cwd), ".group".as_bytes())
}

/// The skeleton of the file system.
pub open spec fn skeleton() -> Seq<&'static str> {
    seq![
        "--tmpfs",
        "/tmp",
        "--tmpfs",
        "/run",
        "--proc",
        "/proc",
        "--dev",
        "/dev",
        "--symlink",
        "/run",
        "/var/run",
        "--symlink",
        "/tmp",
        "/var/tmp",
        "--symlink",
        "/usr/bin",
        "/bin",
        "--symlink",
        "/usr/bin",
        "/sbin",
        "--dev-bind-try",
        "/dev/fuse",
        "/dev/fuse",
    ]
}

/// What cuts the sandbox off from the host.
pub open spec fn isolation() -> Seq<&'static str> {
    seq!["--clearenv", "--unshare-all", "--share-net", "--new-session", "--die-with-parent"]
}

/// Arguments that mount and enter the working directory.
pub open spec fn workdir(cwd: Seq<u8>) -> Seq<Seq<u8>> {
    seq![encode_utf8("--bind"@), cwd, cwd, encode_utf8("--chdir"@), cwd]
}

/// Arguments that set up the user of the sandbox.
pub open spec fn account(uid: u32, cwd: Seq<u8>) -> Seq<Seq<u8>> {
    seq![
        encode_utf8("--dir"@),
        encode_utf8(run_user(uid)),
        encode_utf8("--setenv"@),
        encode_utf8("XDG_RUNTIME_DIR"@),
        encode_utf8(run_user(uid)),
        encode_utf8("--setenv"@),
        encode_utf8("PATH"@),
        encode_utf8("/usr/bin"@),
        encode_utf8("--setenv"@),
        encode_utf8("PS1"@),
        encode_utf8("\\u @ \\h \\$ "@),
        encode_utf8("--setenv"@),
        encode_utf8("HOME"@),
        home(cwd),
        encode_utf8("--setenv"@),
        encode_utf8("USER"@),
        encode_utf8("user"@),
        encode_utf8("--setenv"@),
        encode_utf8("TMPDIR"@),
        tmp(cwd),
        encode_utf8("--ro-bind"@),
        passwd(cwd),
        encode_utf8("/etc/passwd"@),
        encode_utf8("--ro-bind"@),
        group(cwd),
        encode_utf8("/etc/group"@),
    ]
}

/// Texts as byte strings.
pub open spec fn encode_each(texts: Seq<Seq<char>>) -> Seq<Seq<u8>> {
    texts.map_values(|w: Seq<char>| encode_utf8(w))
}

impl Sandbox {
    /// The mounts that make up the file system of the sandbox.
    pub open spec fn mounts(self) -> Seq<Seq<u8>> {
        oss(skeleton()) + seq![encode_utf8("--ro-bind"@), self.bin@, self.bin@] + bind_each(
            encode_utf8("--ro-bind-try"@),
            present(self.ro_binds@),
        ) + bind_each(encode_utf8("--bind-try"@), present(self.rw_binds@))
    }

    /// The variables of the caller.
    pub open spec fn vars(self) -> Seq<Named> {
        caller_vars(self.dotenv, var_views(self.process_vars@))
    }

    /// The arguments that set the environment variables which pass.
    pub open spec fn environment(self) -> Seq<Seq<u8>> {
        setenv_reversed(passing(self.vars(), self.parent@))
    }

    /// The further arguments of the user, those of the settings first.
    pub open spec fn extra(self) -> Seq<Seq<u8>> {
        encode_each(words(self.settings.bwrap_args@)) + encode_each(
            words(self.settings.process_bwrap_args@),
        )
    }

    /// The command that runs in the sandbox.
    pub open spec fn command(self) -> Seq<Seq<u8>> {
        seq![self.bin@] + byte_views(self.user_args@)
    }

    /// All arguments of `bwrap`.
    pub open spec fn argv_spec(self) -> Seq<Seq<u8>> {
        self.mounts() + workdir(self.cwd@) + oss(isolation()) + account(self.uid, self.cwd@)
            + self.environment() + self.extra() + self.command()
    }

    /// The line that traces the call, where the settings ask for it.
    pub open spec fn trace_spec(self) -> Option<Seq<char>> {
        if self.settings.verbose {
            Some(traced(lossy_each(self.argv_spec())))
        } else {
            None
        }
    }

    fn push_mounts(&self, argv: &mut Vec<Vec<u8>>)
        ensures
            byte_views(final(argv)@) == byte_views(old(argv)@) + self.mounts(),
    {
        let ghost before = byte_views(argv@);
        let list = [
            "--tmpfs",
            "/tmp",
            "--tmpfs",
            "/run",
            "--proc",
            "/proc",
            "--dev",
            "/dev",
            "--symlink",
            "/run",
            "/var/run",
            "--symlink",
            "/tmp",
            "/var/tmp",
            "--symlink",
            "/usr/bin",
            "/bin",
            "--symlink",
            "/usr/bin",
            "/sbin",
            "--dev-bind-try",
            "/dev/fuse",
            "/dev/fuse",
        ];
        assert(list@ =~= skeleton());
        push_words(argv, &list);
        let ghost first = byte_views(argv@);
        push_word(argv, "--ro-bind");
        push_bytes(argv, &self.bin);
        push_bytes(argv, &self.bin);
        assert(byte_views(argv@) =~= first + seq![
            encode_utf8("--ro-bind"@),
            self.bin@,
            self.bin@,
        ]);
        push_binds(argv, "--ro-bind-try", &self.ro_binds);
        push_binds(argv, "--bind-try", &self.rw_binds);
        assert(byte_views(argv@) =~= before + self.mounts());
    }

    fn push_extra(&self, argv: &mut Vec<Vec<u8>>)
        ensures
            byte_views(final(argv)@) == byte_views(old(argv)@) + self.extra(),
    {
        let ghost before = byte_views(argv@);
        push_texts(argv, &split_args_by_lf(&self.settings.bwrap_args));
        push_texts(argv, &split_args_by_lf(&self.settings.process_bwrap_args));
        assert(byte_views(argv@) =~= before + self.extra());
    }

    /// All arguments of `bwrap`.
    pub fn argv(&self) -> (r: Vec<Vec<u8>>)
        ensures
            byte_views(r@) == self.argv_spec(),
            self.dotenv matches Some(map) ==> map.pairs_enumerate(),
            r@.len() > self.user_args@.len(),
            r@[r@.len() - self.user_args@.len() - 1]@ == self.bin@,
            forall|i: int|
                0 <= i < self.user_args@.len() ==> (#[trigger] self.user_args@[i])@ == r@[r@.len()
                    - self.user_args@.len() + i]@,
    {
        let mut r: Vec<Vec<u8>> = Vec::new();
        let ghost start = byte_views(r@);
        self.push_mounts(&mut r);
        assert(start + self.mounts() =~= self.mounts());
        push_workdir(&mut r, &self.cwd);
        let list = [
            "--clearenv",
            "--unshare-all",
            "--share-net",
            "--new-session",
            "--die-with-parent",
        ];
        assert(list@ =~= isolation());
        push_words(&mut r, &list);
        push_account(&mut r, self.uid, &self.cwd);
        push_all(
            &mut r,
            &build_env_pass_through(&self.dotenv, &self.process_vars, &self.parent),
        );
        self.push_extra(&mut r);
        let ghost before = byte_views(r@);
        push_bytes(&mut r, &self.bin);
        push_all(&mut r, &self.user_args);
        assert(byte_views(r@) =~= before + self.command());
        proof {
            law_command_forwarded(*self, r);
        }
        r
    }

    /// The line that traces the call, where the settings ask for it.
    pub fn trace(&self) -> (r: Option<String>)
        ensures
            match r {
                Some(line) => self.trace_spec() == Some(line@),
                None => self.trace_spec() is None,
            },
    {
        if self.settings.verbose {
            Some(trace_call(&self.argv()))
        } else {
            None
        }
    }
}

/// Appends one word.
fn push_word(argv: &mut Vec<Vec<u8>>, word: &str)
    ensures
        byte_views(final(argv)@) == byte_views(old(argv)@).push(encode_utf8(word@)),
{
    let ghost before = byte_views(argv@);
    argv.push(slice_to_vec(word.as_bytes()));
    assert(byte_views(argv@) =~= before.push(encode_utf8(word@)));
}

/// Appends one byte string.
fn push_bytes(argv: &mut Vec<Vec<u8>>, bytes: &[u8])
    ensures
        byte_views(final(argv)@) == byte_views(old(argv)@).push(bytes@),
{
    let ghost before = byte_views(argv@);
    argv.push(slice_to_vec(bytes));
    assert(byte_views(argv@) =~= before.push(bytes@));
}

/// Appends byte strings.
fn push_all(argv: &mut Vec<Vec<u8>>, list: &Vec<Vec<u8>>)
    ensures
        byte_views(final(argv)@) == byte_views(old(argv)@) + byte_views(list@),
{
    let ghost before = byte_views(argv@);
    let ghost all = byte_views(list@);
    assert(before + all.take(0) =~= before);
    for i in 0..list.len()
        invariant
            all == byte_views(list@),
            byte_views(argv@) == before + all.take(i as int),
    {
        push_bytes(argv, &list[i]);
        assert(before + all.take(i + 1) =~= (before + all.take(i as int)).push(all[i as int]));
    }
    assert(all.take(all.len() as int) =~= all);
}

/// Appends texts.
fn push_texts(argv: &mut Vec<Vec<u8>>, texts: &Vec<String>)
    ensures
        byte_views(final(argv)@) == byte_views(old(argv)@) + encode_each(text_views(texts@)),
{
    let ghost before = byte_views(argv@);
    let ghost all = encode_each(text_views(texts@));
    assert(before + all.take(0) =~= before);
    for i in 0..texts.len()
        invariant
            all == encode_each(text_views(texts@)),
            byte_views(argv@) == before + all.take(i as int),
    {
        push_word(argv, &texts[i]);
        assert(before + all.take(i + 1) =~= (before + all.take(i as int)).push(all[i as int]));
    }
    assert(all.take(all.len() as int) =~= all);
}

/// Appends the mounts of the paths that the host has.
fn push_binds(argv: &mut Vec<Vec<u8>>, flag: &str, binds: &Vec<Bind>)
    ensures
        byte_views(final(argv)@) == byte_views(old(argv)@) + bind_each(
            encode_utf8(flag@),
            present(binds@),
        ),
{
    let ghost before = byte_views(argv@);
    let ghost f = encode_utf8(flag@);
    assert(before + bind_each(f, present(binds@.take(0))) =~= before);
    for i in 0..binds.len()
        invariant
            f == encode_utf8(flag@),
            byte_views(argv@) == before + bind_each(f, present(binds@.take(i as int))),
    {
        let ghost kept = present(binds@.take(i as int));
        let ghost done = byte_views(argv@);
        assert(binds@.take(i + 1).drop_last() =~= binds@.take(i as int));
        if binds[i].exists {
            push_word(argv, flag);
            push_bytes(argv, &binds[i].path);
            push_bytes(argv, &binds[i].path);
            proof {
                let p = binds@[i as int].path@;
                assert(kept.push(p).drop_last() =~= kept);
                assert(byte_views(argv@) =~= before + (bind_each(f, kept) + seq![f, p, p]));
            }
        }
    }
    assert(binds@.take(binds@.len() as int) =~= binds@);
}

/// Appends the mount of the working directory.
fn push_workdir(argv: &mut Vec<Vec<u8>>, cwd: &[u8])
    ensures
        byte_views(final(argv)@) == byte_views(old(argv)@) + workdir(cwd@),
{
    let ghost before = byte_views(argv@);
    push_word(argv, "--bind");
    push_bytes(argv, cwd);
    push_bytes(argv, cwd);
    push_word(argv, "--chdir");
    push_bytes(argv, cwd);
    assert(byte_views(argv@) =~= before + workdir(cwd@));
}

/// Appends what sets up the user of the sandbox.
fn push_account(argv: &mut Vec<Vec<u8>>, uid: u32, cwd: &[u8])
    ensures
        byte_views(final(argv)@) == byte_views(old(argv)@) + account(uid, cwd@),
{
    let ghost before = byte_views(argv@);
    let mut runtime = "/run/user/".to_string();
    runtime.append(&decimal_text(uid));
    push_word(argv, "--dir");
    push_word(argv, &runtime);
    push_word(argv, "--setenv");
    push_word(argv, "XDG_RUNTIME_DIR");
    push_word(argv, &runtime);
    push_word(argv, "--setenv");
    push_word(argv, "PATH");
    push_word(argv, "/usr/bin");
    push_word(argv, "--setenv");
    push_word(argv, "PS1");
    push_word(argv, "\\u @ \\h \\$ ");
    push_word(argv, "--setenv");
    push_word(argv, "HOME");
    push_bytes(argv, &home_dir(cwd));
    push_word(argv, "--setenv");
    push_word(argv, "USER");
    push_word(argv, "user");
    push_word(argv, "--setenv");
    push_word(argv, "TMPDIR");
    push_bytes(argv, &tmp_dir(cwd));
    push_word(argv, "--ro-bind");
    push_bytes(argv, &passwd_file(cwd));
    push_word(argv, "/etc/passwd");
    push_word(argv, "--ro-bind");
    push_bytes(argv, &group_file(cwd));
    push_word(argv, "/etc/group");
    assert(byte_views(argv@) =~= before + account(uid, cwd@));
}

/// The arguments with which `getent` gives the entries of the user and of nobody.
pub fn getent_passwd_args(uid: u32) -> (r: Vec<Vec<u8>>)
    ensures
        byte_views(r@) == seq![
            encode_utf8("passwd"@),
            encode_utf8(decimal(uid as nat)),
            encode_utf8("65534"@),
        ],
{
    let mut r: Vec<Vec<u8>> = Vec::new();
    push_word(&mut r, "passwd");
    push_word(&mut r, &decimal_text(uid));
    push_word(&mut r, "65534");
    assert(byte_views(r@) =~= seq![
        encode_utf8("passwd"@),
        encode_utf8(decimal(uid as nat)),
        encode_utf8("65534"@),
    ]);
    r
}

/// Groups that the sandbox knows besides that of the user.
pub open spec fn known_groups() -> Seq<&'static str> {
    seq![
        "65534",
        "adm",
        "sudo",
        "audio",
        "dip",
        "video",
        "plugdev",
        "staff",
        "users",
        "netdev",
        "scanner",
        "bluetooth",
        "lpadmin",
    ]
}

/// The arguments with which `getent` gives the entries of the group and of the known groups.
pub fn getent_group_args(gid: u32) -> (r: Vec<Vec<u8>>)
    ensures
        byte_views(r@) == seq![encode_utf8("group"@), encode_utf8(decimal(gid as nat))] + oss(
            known_groups(),
        ),
{
    let mut r: Vec<Vec<u8>> = Vec::new();
    push_word(&mut r, "group");
    push_word(&mut r, &decimal_text(gid));
    assert(byte_views(r@) =~= seq![encode_utf8("group"@), encode_utf8(decimal(gid as nat))]);
    let list = [
        "65534",
        "adm",
        "sudo",
        "audio",
        "dip",
        "video",
        "plugdev",
        "staff",
        "users",
        "netdev",
        "scanner",
        "bluetooth",
        "lpadmin",
    ];
    assert(list@ =~= known_groups());
    push_words(&mut r, &list);
    r
}

/// The text of a database: what `getent` printed, or nothing where it could not be run.
pub fn getent_text(stdout: Option<Vec<u8>>) -> (r: String)
    ensures
        r@ == match stdout {
            Some(bytes) => lossy(bytes@),
            None => Seq::empty(),
        },
{
    match stdout {
        Some(bytes) => decode_lossy(&bytes),
        None => String::new(),
    }
}

/// The exit code for the status of the command; one where a signal ended it.
pub fn exit_code(status: Option<i32>) -> (r: i32)
    ensures
        r == match status {
            Some(code) => code,
            None => 1,
        },
{
    match status {
        Some(code) => code,
        None => 1,
    }
}

/// Nothing of the command is lost: whatever else the arguments are, they end with the binary and
/// then all of its own arguments, byte for byte and in order.
pub proof fn law_command_forwarded(sandbox: Sandbox, argv: Vec<Vec<u8>>)
    requires
        byte_views(argv@) == sandbox.argv_spec(),
    ensures
        argv@.len() > sandbox.user_args@.len(),
        argv@[argv@.len() - sandbox.user_args@.len() - 1]@ == sandbox.bin@,
        forall|i: int|
            0 <= i < sandbox.user_args@.len() ==> (#[trigger] sandbox.user_args@[i])@
                == argv@[argv@.len() - sandbox.user_args@.len() + i]@,
{
    let views = byte_views(argv@);
    let n = sandbox.user_args@.len();
    let command = sandbox.command();
    assert(views.len() == argv@.len());
    assert(command.len() == n + 1);
    assert(forall|k: int| 0 <= k < argv@.len() ==> views[k] == (#[trigger] argv@[k])@);
    assert(forall|k: int|
        0 <= k <= n ==> #[trigger] command[k] == views[views.len() - n - 1 + k]);
    assert(views[views.len() - n - 1] == command[0]);
    assert forall|i: int| 0 <= i < n implies (#[trigger] sandbox.user_args@[i])@
        == argv@[argv@.len() - n + i]@ by {
        assert(command[i + 1] == sandbox.user_args@[i]@);
    }
}

/// The command is the end of the arguments: `bwrap` takes nothing after it for its own.
pub proof fn law_command_last(sandbox: Sandbox)
    ensures
        sandbox.command().is_suffix_of(sandbox.argv_spec()),
{
    let argv = sandbox.argv_spec();
    let command = sandbox.command();
    assert(argv.subrange(argv.len() - command.len(), argv.len() as int) =~= command);
}

/// The arguments that set variables stand after the one that clears the environment: first those
/// of the sandbox itself, then those that pass, and last what the user adds, so that the user has
/// the last word.
pub proof fn law_environment_cleared_first(sandbox: Sandbox)
    ensures
        ({
            let argv = sandbox.argv_spec();
            let clear = sandbox.mounts().len() + workdir(sandbox.cwd@).len();
            let env = clear + isolation().len() + account(sandbox.uid, sandbox.cwd@).len();
            let extra = env + sandbox.environment().len();
            let command = extra + sandbox.extra().len();
            &&& argv[clear as int] == encode_utf8("--clearenv"@)
            &&& clear < env
            &&& argv.subrange((clear + isolation().len()) as int, env as int) == account(
                sandbox.uid,
                sandbox.cwd@,
            )
            &&& argv.subrange(env as int, extra as int) == sandbox.environment()
            &&& argv.subrange(extra as int, command as int) == sandbox.extra()
        }),
{
    let argv = sandbox.argv_spec();
    let clear = sandbox.mounts().len() + workdir(sandbox.cwd@).len();
    let env = clear + isolation().len() + account(sandbox.uid, sandbox.cwd@).len();
    let extra = env + sandbox.environment().len();
    let command = extra + sandbox.extra().len();
    assert(oss(isolation())[0] == encode_utf8("--clearenv"@));
    assert(argv.subrange((clear + isolation().len()) as int, env as int) =~= account(
        sandbox.uid,
        sandbox.cwd@,
    ));
    assert(argv.subrange(env as int, extra as int) =~= sandbox.environment());
    assert(argv.subrange(extra as int, command as int) =~= sandbox.extra());
}

/// The verbose setting changes nothing but the trace. Take two sandboxes that agree but for the
/// verbose setting, whose variables do not pass, and a host that has the same paths for the same
/// patterns: `bwrap` gets the same arguments, and the exit code rests on its status alone (see
/// `exit_code`). A trace is written exactly where the upper-case spelling is not empty, or is empty
/// while the lower-case one is not.
pub proof fn law_verbose_only_traces(
    one: Sandbox,
    one_process: ProcessValues,
    other: Sandbox,
    other_process: ProcessValues,
)
    requires
        one.settings@ == settings_of(dotenv_view(one.dotenv), one_process),
        other.settings@ == settings_of(dotenv_view(other.dotenv), other_process),
        one_process.sandbox_ro_bind == other_process.sandbox_ro_bind,
        one_process.bwrap_args == other_process.bwrap_args,
        without_verbose(dotenv_view(one.dotenv)) == without_verbose(dotenv_view(other.dotenv)),
        without(one.vars(), verbose_names()) == without(other.vars(), verbose_names()),
        lacks(passing(one.vars(), one.parent@), verbose_names()),
        lacks(passing(other.vars(), other.parent@), verbose_names()),
        one.settings@.ro_bind == other.settings@.ro_bind ==> present(one.ro_binds@) == present(
            other.ro_binds@,
        ),
        present(one.rw_binds@) == present(other.rw_binds@),
        one.parent@ == other.parent@,
        one.bin@ == other.bin@,
        byte_views(one.user_args@) == byte_views(other.user_args@),
        one.cwd@ == other.cwd@,
        one.uid == other.uid,
    ensures
        one.argv_spec() == other.argv_spec(),
        ({
            let upper = setting(dotenv_view(one.dotenv), "VERBOSE"@, one_process.verbose_upper);
            let lower = setting(dotenv_view(one.dotenv), "verbose"@, one_process.verbose_lower);
            one.trace_spec() is Some <==> upper.len() > 0 || (upper.len() == 0 && lower.len() > 0)
        }),
        one.trace_spec() matches Some(line) ==> "+ bwrap "@.is_prefix_of(line),
{
    let names = verbose_names();
    law_verbose_is_apart(
        dotenv_view(one.dotenv),
        one_process,
        dotenv_view(other.dotenv),
        other_process,
    );
    law_stopped_names_do_not_matter(one.vars(), one.parent@, names);
    law_stopped_names_do_not_matter(other.vars(), other.parent@, names);
    assert(one.settings@.ro_bind == other.settings@.ro_bind);
    assert(one.settings@.bwrap_args == other.settings@.bwrap_args);
    assert(one.settings@.process_bwrap_args == other.settings@.process_bwrap_args);
    assert(one.trace_spec() matches Some(line) ==> "+ bwrap "@.is_prefix_of(line)) by {
        if one.settings.verbose {
            let line = traced(lossy_each(one.argv_spec()));
            assert(line.subrange(0, "+ bwrap "@.len() as int) =~= "+ bwrap "@);
        }
    }
}

/// Each path that the host has takes three arguments: the flag, and the path on the host and in
/// the sandbox, which are the same.
pub proof fn law_bind_shape(flag: Seq<u8>, paths: Seq<Seq<u8>>, i: int)
    requires
        0 <= i < paths.len(),
    ensures
        bind_each(flag, paths).len() == 3 * paths.len(),
        bind_each(flag, paths)[3 * i] == flag,
        bind_each(flag, paths)[3 * i + 1] == paths[i],
        bind_each(flag, paths)[3 * i + 2] == paths[i],
    decreases paths.len(),
{
    lemma_bind_len(flag, paths.drop_last());
    if i < paths.len() - 1 {
        law_bind_shape(flag, paths.drop_last(), i);
    }
}

proof fn lemma_bind_len(flag: Seq<u8>, paths: Seq<Seq<u8>>)
    ensures
        bind_each(flag, paths).len() == 3 * paths.len(),
    decreases paths.len(),
{
    if paths.len() > 0 {
        lemma_bind_len(flag, paths.drop_last());
    }
}

/// A path is bound exactly where the host has it.
pub proof fn law_present(binds: Seq<Bind>, path: Seq<u8>)
    ensures
        present(binds).contains(path) <==> exists|i: int|
            0 <= i < binds.len() && (#[trigger] binds[i]).exists && binds[i].path@ == path,
    decreases binds.len(),
{
    if binds.len() > 0 {
        let init = binds.drop_last();
        let last = binds[binds.len() - 1];
        law_present(init, path);
        if present(binds).contains(path) {
            let k = choose|k: int| 0 <= k < present(binds).len() && present(binds)[k] == path;
            if k < present(init).len() {
                assert(present(init)[k] == path);
                let i = choose|i: int|
                    0 <= i < init.len() && (#[trigger] init[i]).exists && init[i].path@ == path;
                assert(binds[i].exists && binds[i].path@ == path);
            } else {
                assert(last.exists && last.path@ == path);
            }
        }
        if exists|i: int|
            0 <= i < binds.len() && (#[trigger] binds[i]).exists && binds[i].path@ == path {
            let i = choose|i: int|
                0 <= i < binds.len() && (#[trigger] binds[i]).exists && binds[i].path@ == path;
            if i < init.len() {
                assert(init[i].exists && init[i].path@ == path);
                let k = choose|k: int| 0 <= k < present(init).len() && present(init)[k] == path;
                assert(present(binds)[k] == path);
            } else {
                assert(present(binds)[present(init).len() as int] == path);
            }
        }
    }
}

/// Paths to bind are taken one by one and in order, each exactly where the host has it.
pub proof fn law_present_one_by_one(binds: Seq<Bind>, bind: Bind)
    ensures
        present(Seq::empty()) == Seq::<Seq<u8>>::empty(),
        bind.exists ==> present(binds.push(bind)) == present(binds).push(bind.path@),
        !bind.exists ==> present(binds.push(bind)) == present(binds),
{
    assert(binds.push(bind).drop_last() =~= binds);
}

proof fn lemma_plain_word(word: &'static str)
    requires
        is_ascii_chars(word@),
        word@.len() > 0,
        word@[0] != '/',
        word@.last() != '/',
    ensures
        encode_utf8(word@).len() > 0,
        encode_utf8(word@)[0] != SLASH,
        encode_utf8(word@).last() != SLASH,
{
    is_ascii_chars_encode_utf8(word@);
    let n = word@.len();
    assert(encode_utf8(word@)[0] == word@[0] as u8);
    assert(encode_utf8(word@)[n - 1] == word@[n - 1] as u8);
}

/// What the sandbox writes for itself lies below the working directory: its home, in that the
/// directory for temporary files, and in that the two databases.
pub proof fn law_files_of_the_sandbox(cwd: Seq<u8>)
    requires
        cwd.len() > 0,
    ensures
        ({
            let base = if cwd.last() == SLASH {
                cwd
            } else {
                cwd + seq![SLASH]
            };
            let slash = seq![SLASH];
            &&& home(cwd) == base + encode_utf8(".sandbox-home"@)
            &&& tmp(cwd) == home(cwd) + slash + encode_utf8("tmp"@)
            &&& passwd(cwd) == tmp(cwd) + slash + encode_utf8(".passwd"@)
            &&& group(cwd) == tmp(cwd) + slash + encode_utf8(".group"@)
        }),
{
    reveal_strlit(".sandbox-home");
    reveal_strlit("tmp");
    reveal_strlit(".passwd");
    reveal_strlit(".group");
    lemma_plain_word(".sandbox-home");
    lemma_plain_word("tmp");
    lemma_plain_word(".passwd");
    lemma_plain_word(".group");
    law_joined(cwd, encode_utf8(".sandbox-home"@));
    law_joined(home(cwd), encode_utf8("tmp"@));
    law_joined(tmp(cwd), encode_utf8(".passwd"@));
    law_joined(tmp(cwd), encode_utf8(".group"@));
}

/// The arguments section by section: a skeleton, the binary, the paths to read and to write, the
/// working directory, the isolation, the account, the variables, what the user adds through the
/// settings and through the process, and the command.
pub proof fn law_sections(sandbox: Sandbox)
    ensures
        sandbox.argv_spec() == oss(skeleton()) + seq![
            encode_utf8("--ro-bind"@),
            sandbox.bin@,
            sandbox.bin@,
        ] + bind_each(encode_utf8("--ro-bind-try"@), present(sandbox.ro_binds@)) + bind_each(
            encode_utf8("--bind-try"@),
            present(sandbox.rw_binds@),
        ) + seq![
            encode_utf8("--bind"@),
            sandbox.cwd@,
            sandbox.cwd@,
            encode_utf8("--chdir"@),
            sandbox.cwd@,
        ] + oss(isolation()) + account(sandbox.uid, sandbox.cwd@) + setenv_reversed(
            passing(
                caller_vars(sandbox.dotenv, var_views(sandbox.process_vars@)),
                sandbox.parent@,
            ),
        ) + encode_each(words(sandbox.settings.bwrap_args@)) + encode_each(
            words(sandbox.settings.process_bwrap_args@),
        ) + seq![sandbox.bin@] + byte_views(sandbox.user_args@),
{
    assert(sandbox.argv_spec() =~= sandbox.mounts() + workdir(sandbox.cwd@) + oss(isolation())
        + account(sandbox.uid, sandbox.cwd@) + sandbox.environment() + encode_each(
        words(sandbox.settings.bwrap_args@),
    ) + encode_each(words(sandbox.settings.process_bwrap_args@)) + seq![sandbox.bin@] + byte_views(
        sandbox.user_args@,
    ));
}

/// The account of the sandbox: for every user its own runtime directory, the system's programs,
/// the home and the temporary directory below the working directory, and the two databases in
/// place of those of the host.
pub proof fn law_account(uid: u32, cwd: Seq<u8>)
    ensures
        ({
            let args = account(uid, cwd);
            let runtime = encode_utf8("/run/user/"@ + decimal(uid as nat));
            &&& args.len() == 26
            &&& args[0] == encode_utf8("--dir"@) && args[1] == runtime
            &&& sets_at(args, "XDG_RUNTIME_DIR"@, runtime, 2)
            &&& sets_at(args, "PATH"@, encode_utf8("/usr/bin"@), 5)
            &&& sets_at(args, "PS1"@, encode_utf8("\\u @ \\h \\$ "@), 8)
            &&& sets_at(args, "HOME"@, home(cwd), 11)
            &&& sets_at(args, "USER"@, encode_utf8("user"@), 14)
            &&& sets_at(args, "TMPDIR"@, tmp(cwd), 17)
            &&& args[20] == encode_utf8("--ro-bind"@)
            &&& args[21] == passwd(cwd) && args[22] == encode_utf8("/etc/passwd"@)
            &&& args[23] == encode_utf8("--ro-bind"@)
            &&& args[24] == group(cwd) && args[25] == encode_utf8("/etc/group"@)
        }),
{
}

/// The environment section stands in the arguments as it is.
proof fn lemma_environment_inside(sandbox: Sandbox, name: Seq<char>, value: Seq<u8>, k: int)
    requires
        sets_at(sandbox.environment(), name, value, k),
    ensures
        ({
            let start = sandbox.mounts().len() + workdir(sandbox.cwd@).len() + isolation().len()
                + account(sandbox.uid, sandbox.cwd@).len();
            &&& sets_at(sandbox.argv_spec(), name, value, start + k)
            &&& start + k + 2 < sandbox.argv_spec().len() - sandbox.user_args@.len() - 1
        }),
{
    let before = sandbox.mounts() + workdir(sandbox.cwd@) + oss(isolation()) + account(
        sandbox.uid,
        sandbox.cwd@,
    );
    let env = sandbox.environment();
    let argv = sandbox.argv_spec();
    assert(argv =~= before + env + (sandbox.extra() + sandbox.command()));
    assert(forall|i: int| 0 <= i < env.len() ==> argv[before.len() + i] == #[trigger] env[i]);
    assert(argv[before.len() + k] == env[k]);
    assert(argv[before.len() + (k + 1)] == env[k + 1]);
    assert(argv[before.len() + (k + 2)] == env[k + 2]);
}

/// A variable of the process that is new to it reaches the command with its value where there is
/// no dotenv environment, unless its name is denied or starts with an underscore.
pub proof fn law_process_variable_reaches_command(sandbox: Sandbox, i: int)
    requires
        sandbox.dotenv is None,
        0 <= i < sandbox.process_vars@.len(),
        !sandbox.parent@.contains(sandbox.process_vars@[i].name@),
        sandbox.process_vars@[i].name@ != "_"@,
        sandbox.process_vars@[i].name@ != "LS_COLORS"@,
        sandbox.process_vars@[i].name@ != "PS1"@,
        sandbox.process_vars@[i].name@ != "BWRAP_ARGS"@,
        sandbox.process_vars@[i].name@ != "SANDBOX_RO_BIND"@,
        sandbox.process_vars@[i].name@.len() == 0 || sandbox.process_vars@[i].name@[0] != '_',
    ensures
        exists|k: int| #[trigger]
            sets_at(
                sandbox.argv_spec(),
                sandbox.process_vars@[i].name@,
                sandbox.process_vars@[i].value@,
                k,
            ) && k + 2 < sandbox.argv_spec().len() - sandbox.user_args@.len() - 1,
{
    let vars = sandbox.vars();
    assert(vars[i] == (sandbox.process_vars@[i].name@, sandbox.process_vars@[i].value@));
    law_new_variable_set(vars, sandbox.parent@, i);
    let k = choose|k: int| #[trigger]
        sets_at(sandbox.environment(), vars[i].0, vars[i].1, k);
    lemma_environment_inside(sandbox, vars[i].0, vars[i].1, k);
}

/// A variable of a dotenv environment that is new to the process reaches the command with its
/// value, unless its name is denied or starts with an underscore.
pub proof fn law_dotenv_variable_reaches_command(sandbox: Sandbox, map: EnvMap, key: Seq<u8>)
    requires
        sandbox.dotenv == Some(map),
        map.pairs_enumerate(),
        map@.contains_key(key),
        !sandbox.parent@.contains(lossy(key)),
        lossy(key) != "_"@,
        lossy(key) != "LS_COLORS"@,
        lossy(key) != "PS1"@,
        lossy(key) != "BWRAP_ARGS"@,
        lossy(key) != "SANDBOX_RO_BIND"@,
        lossy(key).len() == 0 || lossy(key)[0] != '_',
    ensures
        exists|k: int| #[trigger]
            sets_at(sandbox.argv_spec(), lossy(key), map@[key], k) && k + 2
                < sandbox.argv_spec().len() - sandbox.user_args@.len() - 1,
{
    let vars = sandbox.vars();
    crate::environ::law_pairs_list_the_map(map, key);
    let i = choose|i: int| 0 <= i < map.pairs().len() && #[trigger] map.pairs()[i].0 == key;
    assert(vars[i] == (lossy(key), map@[key]));
    law_new_variable_set(vars, sandbox.parent@, i);
    let k = choose|k: int| #[trigger]
        sets_at(sandbox.environment(), vars[i].0, vars[i].1, k);
    lemma_environment_inside(sandbox, vars[i].0, vars[i].1, k);
}

/// What the user lists in the settings and in the process, a line for each argument, stands right
/// before the command, argument by argument.
pub proof fn law_user_arguments(sandbox: Sandbox, a: Seq<Seq<char>>, b: Seq<Seq<char>>)
    requires
        sandbox.settings.bwrap_args@ == join(a, '\n') + seq!['\n'],
        sandbox.settings.process_bwrap_args@ == join(b, '\n') + seq!['\n'],
        forall|i: int| 0 <= i < a.len() ==> (#[trigger] a[i]).len() > 0 && !a[i].contains('\n'),
        forall|i: int| 0 <= i < b.len() ==> (#[trigger] b[i]).len() > 0 && !b[i].contains('\n'),
    ensures
        ({
            let argv = sandbox.argv_spec();
            let end = argv.len() - sandbox.user_args@.len() - 1;
            &&& end >= a.len() + b.len()
            &&& forall|i: int|
                0 <= i < a.len() ==> argv[end - b.len() - a.len() + i] == encode_utf8(
                    #[trigger] a[i],
                )
            &&& forall|i: int|
                0 <= i < b.len() ==> argv[end - b.len() + i] == encode_utf8(#[trigger] b[i])
        }),
{
    let argv = sandbox.argv_spec();
    let command = sandbox.command();
    let extra = sandbox.extra();
    let end = argv.len() - command.len();
    crate::args::law_words_of_ended_lines(a);
    crate::args::law_words_of_ended_lines(b);
    assert(join(a, '\n') + seq!['\n'] =~= join(a, '\n').push('\n'));
    assert(join(b, '\n') + seq!['\n'] =~= join(b, '\n').push('\n'));
    assert(extra == encode_each(a) + encode_each(b));
    assert(forall|i: int|
        0 <= i < extra.len() ==> argv[end - extra.len() + i] == #[trigger] extra[i]);
    assert forall|i: int| 0 <= i < a.len() implies argv[end - b.len() - a.len() + i] == encode_utf8(
        #[trigger] a[i],
    ) by {
        assert(extra[i] == encode_utf8(a[i]));
    }
    assert forall|i: int| 0 <= i < b.len() implies argv[end - b.len() + i] == encode_utf8(
        #[trigger] b[i],
    ) by {
        assert(extra[a.len() + i] == encode_utf8(b[i]));
    }
}

/// The trace is that of the very arguments that `bwrap` gets.
pub proof fn law_trace_shows_arguments(sandbox: Sandbox)
    ensures
        sandbox.settings.verbose ==> sandbox.trace_spec() == Some(
            traced(lossy_each(sandbox.argv_spec())),
        ),
        !sandbox.settings.verbose ==> sandbox.trace_spec() is None,
{
}

/// The run ends with the code of the command, and with one where the command has none.
pub proof fn law_exit_code(status: Option<i32>, r: i32)
    requires
        call_ensures(exit_code, (status,), r),
    ensures
        status is Some ==> r == status->0,
        status is None ==> r == 1,
{
}

} // verus!
