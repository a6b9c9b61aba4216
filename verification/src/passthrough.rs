//! Which environment variables of the caller reach the sandbox.
use vstd::prelude::*;
use vstd::slice::slice_to_vec;
use vstd::string::*;
use vstd::utf8::*;

use crate::environ::{
    caller_vars, env_source, var_views, EnvMap, EnvSource, EnvVar, NameSet, Named,
};
use crate::pieces::byte_views;
use crate::text::{has_prefix, text_eq};

verus! {

/// Names that pass whether or not the parent process has them.
pub open spec fn allowed() -> Seq<&'static str> {
    seq![
        "USER",
        "LOGNAME",
        "UID",
        "PATH",
        "TERM",
        "HOSTNAME",
        "LANGUAGE",
        "LANG",
        "TZ",
        "http_proxy",
        "https_proxy",
        "HTTP_PROXY",
        "HTTPS_PROXY",
        "CC",
        "CFLAGS",
        "CXXFLAGS",
        "CPPFLAGS",
        "LDFLAGS",
        "LDLIBS",
        "MAKEFLAGS",
    ]
}

/// Names that never pass.
pub open spec fn denied() -> Seq<&'static str> {
    seq!["_", "LS_COLORS", "PS1", "BWRAP_ARGS", "SANDBOX_RO_BIND"]
}

pub open spec fn listed(name: Seq<char>, words: Seq<&'static str>) -> bool {
    exists|i: int| 0 <= i < words.len() && (#[trigger] words[i])@ == name
}

/// Whether a variable passes: it is allowed, is a locale setting, or is absent from the parent's
/// environment, and it is neither denied nor starts with an underscore.
pub open spec fn passes(name: Seq<char>, parent: Set<Seq<char>>) -> bool {
    &&& listed(name, allowed()) || "LC_"@.is_prefix_of(name) || !parent.contains(name)
    &&& !listed(name, denied())
    &&& !"_"@.is_prefix_of(name)
}

/// The variables that pass, in their order.
pub open spec fn passing(vars: Seq<Named>, parent: Set<Seq<char>>) -> Seq<Named> {
    vars.filter(|v: Named| passes(v.0, parent))
}

/// The `bwrap` arguments that set one variable.
pub open spec fn setenv(v: Named) -> Seq<Seq<u8>> {
    seq![encode_utf8("--setenv"@), encode_utf8(v.0), v.1]
}

/// The `bwrap` arguments that set variables, from the last to the first.
pub open spec fn setenv_reversed(vars: Seq<Named>) -> Seq<Seq<u8>>
    decreases vars.len(),
{
    if vars.len() == 0 {
        Seq::empty()
    } else {
        setenv(vars.last()) + setenv_reversed(vars.drop_last())
    }
}

fn is_listed(name: &str, words: &[&'static str]) -> (r: bool)
    ensures
        r == listed(name@, words@),
{
    for i in 0..words.len()
        invariant
            forall|k: int| 0 <= k < i ==> (#[trigger] words@[k])@ != name@,
    {
        if text_eq(words[i], name) {
            assert(words@[i as int]@ == name@);
            return true;
        }
    }
    false
}

/// Whether a variable of this name passes.
pub fn passes_through(name: &str, parent: &NameSet) -> (r: bool)
    ensures
        r == passes(name@, parent@),
        !parent@.contains(name@) && name@ != "_"@ && name@ != "LS_COLORS"@ && name@ != "PS1"@
            && name@ != "BWRAP_ARGS"@ && name@ != "SANDBOX_RO_BIND"@ && (name@.len() == 0
            || name@[0] != '_') ==> r,
        name@.len() > 0 && name@[0] == '_' ==> !r,
{
    let allow = [
        "USER",
        "LOGNAME",
        "UID",
        "PATH",
        "TERM",
        "HOSTNAME",
        "LANGUAGE",
        "LANG",
        "TZ",
        "http_proxy",
        "https_proxy",
        "HTTP_PROXY",
        "HTTPS_PROXY",
        "CC",
        "CFLAGS",
        "CXXFLAGS",
        "CPPFLAGS",
        "LDFLAGS",
        "LDLIBS",
        "MAKEFLAGS",
    ];
    let deny = ["_", "LS_COLORS", "PS1", "BWRAP_ARGS", "SANDBOX_RO_BIND"];
    assert(allow@ =~= allowed());
    assert(deny@ =~= denied());
    proof {
        law_who_passes(name@, parent@);
    }
    let in_whitelist = is_listed(name, &allow) || has_prefix(name, "LC_");
    let is_exclusive = !parent.contains(name);
    if !in_whitelist && !is_exclusive {
        return false;
    }
    !is_listed(name, &deny) && !has_prefix(name, "_")
}

/// The `bwrap` arguments that set the variables which pass, the last one first.
pub fn setenv_args(vars: &Vec<EnvVar>, parent: &NameSet) -> (r: Vec<Vec<u8>>)
    ensures
        byte_views(r@) == setenv_reversed(passing(var_views(vars@), parent@)),
{
    let ghost all = var_views(vars@);
    let ghost whole = setenv_reversed(passing(all, parent@));
    let mut r: Vec<Vec<u8>> = Vec::new();
    let mut i: usize = vars.len();
    proof {
        assert(all.take(i as int) =~= all);
        assert(byte_views(r@) + whole =~= whole);
    }
    while i > 0
        invariant
            i <= vars.len(),
            all == var_views(vars@),
            whole == setenv_reversed(passing(all, parent@)),
            byte_views(r@) + setenv_reversed(passing(all.take(i as int), parent@)) == whole,
        decreases i,
    {
        let ghost done = byte_views(r@);
        let ghost rest = all.take(i - 1);
        i = i - 1;
        proof {
            assert(all.take(i + 1) =~= rest.push(all[i as int]));
            rest.lemma_filter_push(all[i as int], |v: Named| passes(v.0, parent@));
        }
        if passes_through(&vars[i].name, parent) {
            r.push(slice_to_vec("--setenv".as_bytes()));
            r.push(slice_to_vec(vars[i].name.as_str().as_bytes()));
            r.push(slice_to_vec(vars[i].value.as_slice()));
            proof {
                let v = all[i as int];
                assert(v == (vars@[i as int].name@, vars@[i as int].value@));
                assert(byte_views(r@) =~= done + setenv(v));
                let kept = passing(rest, parent@);
                assert(kept.push(v).drop_last() =~= kept);
                assert(done + (setenv(v) + setenv_reversed(kept)) =~= done + setenv(v)
                    + setenv_reversed(kept));
            }
        }
    }
    assert(passing(all.take(0), parent@) =~= Seq::empty()) by {
        reveal(Seq::filter);
        assert(all.take(0) =~= Seq::empty());
    }
    assert(byte_views(r@) =~= whole);
    r
}

/// The `bwrap` arguments that set the environment of a sandbox: the variables which pass, the last
/// one first, of the dotenv environment where there is one and of the process otherwise.
pub fn build_env_pass_through(
    dotenv: &Option<EnvMap>,
    process: &Vec<EnvVar>,
    parent: &NameSet,
) -> (r: Vec<Vec<u8>>)
    ensures
        byte_views(r@) == setenv_reversed(
            passing(caller_vars(*dotenv, var_views(process@)), parent@),
        ),
        *dotenv matches Some(map) ==> map.pairs_enumerate(),
{
    match env_source(dotenv) {
        EnvSource::Dotenv(vars) => setenv_args(&vars, parent),
        EnvSource::Process => setenv_args(process, parent),
    }
}

/// Every variable that is set takes three arguments: the flag, the name and the value. The
/// variables come in the reverse of their order.
pub proof fn law_setenv_shape(vars: Seq<Named>, i: int)
    requires
        0 <= i < vars.len(),
    ensures
        setenv_reversed(vars).len() == 3 * vars.len(),
        setenv_reversed(vars)[3 * i] == encode_utf8("--setenv"@),
        setenv_reversed(vars)[3 * i + 1] == encode_utf8(vars[vars.len() - 1 - i].0),
        setenv_reversed(vars)[3 * i + 2] == vars[vars.len() - 1 - i].1,
    decreases vars.len(),
{
    let init = vars.drop_last();
    let head = setenv(vars.last());
    let tail = setenv_reversed(init);
    lemma_setenv_len(init);
    if i > 0 {
        law_setenv_shape(init, i - 1);
        assert(forall|k: int| 3 <= k < 3 * vars.len() ==> (head + tail)[k] == tail[k - 3]);
        assert(init[init.len() - 1 - (i - 1)] == vars[vars.len() - 1 - i]);
    }
}

proof fn lemma_setenv_len(vars: Seq<Named>)
    ensures
        setenv_reversed(vars).len() == 3 * vars.len(),
    decreases vars.len(),
{
    if vars.len() > 0 {
        lemma_setenv_len(vars.drop_last());
    }
}

/// Whatever the environments hold, a variable that reaches the sandbox is one of the caller's,
/// is not denied, does not start with an underscore, and is known to the parent only where it is
/// allowed or a locale setting.
pub proof fn law_nothing_leaks(vars: Seq<Named>, parent: Set<Seq<char>>, i: int)
    requires
        0 <= i < passing(vars, parent).len(),
    ensures
        vars.contains(passing(vars, parent)[i]),
        !listed(passing(vars, parent)[i].0, denied()),
        !"_"@.is_prefix_of(passing(vars, parent)[i].0),
        parent.contains(passing(vars, parent)[i].0) ==> listed(
            passing(vars, parent)[i].0,
            allowed(),
        ) || "LC_"@.is_prefix_of(passing(vars, parent)[i].0),
{
    let pred = |v: Named| passes(v.0, parent);
    let v = passing(vars, parent)[i];
    vars.lemma_filter_pred(pred, i);
    assert(vars.filter(pred).contains(v));
    vars.lemma_filter_contains_rev(pred, v);
}

/// A variable of the caller that passes is not lost.
pub proof fn law_nothing_lost(vars: Seq<Named>, parent: Set<Seq<char>>, i: int)
    requires
        0 <= i < vars.len(),
        passes(vars[i].0, parent),
    ensures
        passing(vars, parent).contains(vars[i]),
{
    vars.lemma_filter_contains(|v: Named| passes(v.0, parent), i);
}

/// The variables whose names are not among `names`, in their order.
pub open spec fn without(vars: Seq<Named>, names: Set<Seq<char>>) -> Seq<Named> {
    vars.filter(|v: Named| !names.contains(v.0))
}

/// No variable has a name among `names`.
pub open spec fn lacks(vars: Seq<Named>, names: Set<Seq<char>>) -> bool {
    forall|i: int| 0 <= i < vars.len() ==> !names.contains((#[trigger] vars[i]).0)
}

/// Names under which nothing passes do not matter: what passes is the same without them.
pub proof fn law_stopped_names_do_not_matter(
    vars: Seq<Named>,
    parent: Set<Seq<char>>,
    names: Set<Seq<char>>,
)
    requires
        lacks(passing(vars, parent), names),
    ensures
        passing(without(vars, names), parent) == passing(vars, parent),
    decreases vars.len(),
{
    reveal(Seq::filter);
    if vars.len() > 0 {
        let init = vars.drop_last();
        let v = vars.last();
        let kept = passing(init, parent);
        if passes(v.0, parent) {
            assert(passing(vars, parent) == kept.push(v));
            assert(!names.contains(passing(vars, parent)[kept.len() as int].0));
            assert forall|i: int| 0 <= i < kept.len() implies !names.contains(
                (#[trigger] kept[i]).0,
            ) by {
                assert(kept[i] == passing(vars, parent)[i]);
            }
        }
        law_stopped_names_do_not_matter(init, parent, names);
        without(init, names).lemma_filter_push(v, |v: Named| passes(v.0, parent));
    }
}

/// `small` is what `large` holds at `places`, which rise.
pub open spec fn at_places<T>(small: Seq<T>, large: Seq<T>, places: Seq<int>) -> bool {
    &&& places.len() == small.len()
    &&& forall|i: int| 0 <= i < places.len() ==> 0 <= #[trigger] places[i] < large.len()
    &&& forall|i: int, j: int|
        0 <= i < j < places.len() ==> #[trigger] places[i] < #[trigger] places[j]
    &&& forall|i: int| 0 <= i < small.len() ==> #[trigger] small[i] == large[places[i]]
}

/// `small` is `large` with elements left out.
pub open spec fn subsequence<T>(small: Seq<T>, large: Seq<T>) -> bool {
    exists|places: Seq<int>| #[trigger] at_places(small, large, places)
}

/// The more the parent has, the less passes, and what still passes keeps its order.
pub proof fn law_parent_shadows(vars: Seq<Named>, less: Set<Seq<char>>, more: Set<Seq<char>>)
    requires
        less.subset_of(more),
    ensures
        subsequence(passing(vars, more), passing(vars, less)),
    decreases vars.len(),
{
    reveal(Seq::filter);
    if vars.len() == 0 {
        assert(at_places(passing(vars, more), passing(vars, less), Seq::empty()));
    } else {
        let init = vars.drop_last();
        let v = vars.last();
        let small = passing(init, more);
        let large = passing(init, less);
        law_parent_shadows(init, less, more);
        let places = choose|places: Seq<int>| #[trigger] at_places(small, large, places);
        assert(passing(vars, less) == if passes(v.0, less) {
            large.push(v)
        } else {
            large
        });
        if passes(v.0, more) {
            assert(passes(v.0, less));
            assert(passing(vars, more) == small.push(v));
            assert(at_places(small.push(v), large.push(v), places.push(large.len() as int)));
        } else {
            assert(passing(vars, more) == small);
            assert(at_places(small, passing(vars, less), places));
        }
    }
}

/// Which names pass: five are stopped and so is every other one that starts with an underscore;
/// of the rest, twenty pass in any case and so does every locale setting, and all others pass
/// where the parent lacks them.
pub proof fn law_who_passes(name: Seq<char>, parent: Set<Seq<char>>)
    ensures
        ({
            let stopped = {
                ||| name == "_"@
                ||| name == "LS_COLORS"@
                ||| name == "PS1"@
                ||| name == "BWRAP_ARGS"@
                ||| name == "SANDBOX_RO_BIND"@
                ||| name.len() > 0 && name[0] == '_'
            };
            let known = {
                ||| name == "USER"@
                ||| name == "LOGNAME"@
                ||| name == "UID"@
                ||| name == "PATH"@
                ||| name == "TERM"@
                ||| name == "HOSTNAME"@
                ||| name == "LANGUAGE"@
                ||| name == "LANG"@
                ||| name == "TZ"@
                ||| name == "http_proxy"@
                ||| name == "https_proxy"@
                ||| name == "HTTP_PROXY"@
                ||| name == "HTTPS_PROXY"@
                ||| name == "CC"@
                ||| name == "CFLAGS"@
                ||| name == "CXXFLAGS"@
                ||| name == "CPPFLAGS"@
                ||| name == "LDFLAGS"@
                ||| name == "LDLIBS"@
                ||| name == "MAKEFLAGS"@
                ||| name.len() >= 3 && name[0] == 'L' && name[1] == 'C' && name[2] == '_'
            };
            passes(name, parent) <==> !stopped && (known || !parent.contains(name))
        }),
{
    assert(allowed()[0]@ == "USER"@);
    assert(allowed()[1]@ == "LOGNAME"@);
    assert(allowed()[2]@ == "UID"@);
    assert(allowed()[3]@ == "PATH"@);
    assert(allowed()[4]@ == "TERM"@);
    assert(allowed()[5]@ == "HOSTNAME"@);
    assert(allowed()[6]@ == "LANGUAGE"@);
    assert(allowed()[7]@ == "LANG"@);
    assert(allowed()[8]@ == "TZ"@);
    assert(allowed()[9]@ == "http_proxy"@);
    assert(allowed()[10]@ == "https_proxy"@);
    assert(allowed()[11]@ == "HTTP_PROXY"@);
    assert(allowed()[12]@ == "HTTPS_PROXY"@);
    assert(allowed()[13]@ == "CC"@);
    assert(allowed()[14]@ == "CFLAGS"@);
    assert(allowed()[15]@ == "CXXFLAGS"@);
    assert(allowed()[16]@ == "CPPFLAGS"@);
    assert(allowed()[17]@ == "LDFLAGS"@);
    assert(allowed()[18]@ == "LDLIBS"@);
    assert(allowed()[19]@ == "MAKEFLAGS"@);
    assert(denied()[0]@ == "_"@);
    assert(denied()[1]@ == "LS_COLORS"@);
    assert(denied()[2]@ == "PS1"@);
    assert(denied()[3]@ == "BWRAP_ARGS"@);
    assert(denied()[4]@ == "SANDBOX_RO_BIND"@);
    reveal_strlit("LC_");
    reveal_strlit("_");
    if name.len() >= 3 {
        let head = name.subrange(0, 3);
        assert(head[0] == name[0] && head[1] == name[1] && head[2] == name[2]);
        assert(name[0] == 'L' && name[1] == 'C' && name[2] == '_' ==> head =~= "LC_"@);
    }
    if name.len() >= 1 {
        let head = name.subrange(0, 1);
        assert(head[0] == name[0]);
        assert(name[0] == '_' ==> head =~= "_"@);
    }
}

/// What passes is decided variable by variable, by the name of each alone.
pub proof fn law_decided_one_by_one(
    a: Seq<Named>,
    b: Seq<Named>,
    v: Named,
    parent: Set<Seq<char>>,
)
    ensures
        passing(a + b, parent) == passing(a, parent) + passing(b, parent),
        passing(seq![v], parent) == if passes(v.0, parent) {
            seq![v]
        } else {
            Seq::empty()
        },
{
    Seq::filter_distributes_over_add(a, b, |v: Named| passes(v.0, parent));
    reveal(Seq::filter);
    assert(seq![v].drop_last() =~= Seq::empty());
    assert(passing(seq![v].drop_last(), parent) =~= Seq::empty());
    assert(passing(seq![v], parent) =~= if passes(v.0, parent) {
        seq![v]
    } else {
        Seq::empty()
    });
}

/// The arguments set a variable: at `k` the flag, then the name, then the value.
pub open spec fn sets_at(args: Seq<Seq<u8>>, name: Seq<char>, value: Seq<u8>, k: int) -> bool {
    &&& 0 <= k
    &&& k + 2 < args.len()
    &&& args[k] == encode_utf8("--setenv"@)
    &&& args[k + 1] == encode_utf8(name)
    &&& args[k + 2] == value
}

/// A variable that passes is set, with its value.
proof fn lemma_passing_is_set(vars: Seq<Named>, parent: Set<Seq<char>>, i: int)
    requires
        0 <= i < vars.len(),
        passes(vars[i].0, parent),
    ensures
        passing(vars, parent).contains(vars[i]),
        exists|k: int| #[trigger]
            sets_at(setenv_reversed(passing(vars, parent)), vars[i].0, vars[i].1, k),
{
    law_nothing_lost(vars, parent, i);
    let kept = passing(vars, parent);
    let j = choose|j: int| 0 <= j < kept.len() && kept[j] == vars[i];
    law_setenv_shape(kept, kept.len() - 1 - j);
    assert(sets_at(setenv_reversed(kept), vars[i].0, vars[i].1, 3 * (kept.len() - 1 - j)));
}

/// A variable that is new to the caller is set in the sandbox with its value, unless its name is
/// one of the five that are denied or starts with an underscore. An underscore elsewhere in the
/// name does no harm.
pub proof fn law_new_variable_set(vars: Seq<Named>, parent: Set<Seq<char>>, i: int)
    requires
        0 <= i < vars.len(),
        !parent.contains(vars[i].0),
        vars[i].0 != "_"@,
        vars[i].0 != "LS_COLORS"@,
        vars[i].0 != "PS1"@,
        vars[i].0 != "BWRAP_ARGS"@,
        vars[i].0 != "SANDBOX_RO_BIND"@,
        vars[i].0.len() == 0 || vars[i].0[0] != '_',
    ensures
        passing(vars, parent).contains(vars[i]),
        exists|k: int| #[trigger]
            sets_at(setenv_reversed(passing(vars, parent)), vars[i].0, vars[i].1, k),
{
    law_who_passes(vars[i].0, parent);
    lemma_passing_is_set(vars, parent, i);
}

/// A locale setting is set in the sandbox with its value, whatever the parent has.
pub proof fn law_locale_set(vars: Seq<Named>, parent: Set<Seq<char>>, i: int)
    requires
        0 <= i < vars.len(),
        vars[i].0.len() >= 3,
        vars[i].0[0] == 'L',
        vars[i].0[1] == 'C',
        vars[i].0[2] == '_',
    ensures
        passing(vars, parent).contains(vars[i]),
        exists|k: int| #[trigger]
            sets_at(setenv_reversed(passing(vars, parent)), vars[i].0, vars[i].1, k),
{
    reveal_strlit("_");
    reveal_strlit("LS_COLORS");
    reveal_strlit("PS1");
    reveal_strlit("BWRAP_ARGS");
    reveal_strlit("SANDBOX_RO_BIND");
    law_who_passes(vars[i].0, parent);
    lemma_passing_is_set(vars, parent, i);
}

/// The arguments made for a process without a dotenv environment set each of its variables that is
/// new to it, with its value, unless the name is denied or starts with an underscore.
pub proof fn law_new_variable_in_arguments(
    process: &Vec<EnvVar>,
    parent: &NameSet,
    r: Vec<Vec<u8>>,
    i: int,
)
    requires
        call_ensures(build_env_pass_through, (&None, process, parent), r) || call_ensures(
            setenv_args,
            (process, parent),
            r,
        ),
        0 <= i < process@.len(),
        !parent@.contains(process@[i].name@),
        process@[i].name@ != "_"@,
        process@[i].name@ != "LS_COLORS"@,
        process@[i].name@ != "PS1"@,
        process@[i].name@ != "BWRAP_ARGS"@,
        process@[i].name@ != "SANDBOX_RO_BIND"@,
        process@[i].name@.len() == 0 || process@[i].name@[0] != '_',
    ensures
        exists|k: int| #[trigger]
            sets_at(byte_views(r@), process@[i].name@, process@[i].value@, k),
{
    let vars = var_views(process@);
    assert(vars[i] == (process@[i].name@, process@[i].value@));
    law_new_variable_set(vars, parent@, i);
}

} // verus!
