//! The paths that the sandbox sees.
use vstd::prelude::*;
use vstd::slice::slice_to_vec;
use vstd::string::*;
use vstd::utf8::*;

use crate::order::{path_before, sort_paths, sorted_from};
use crate::pieces::byte_views;

verus! {

/// What came of looking for the paths that match a pattern.
pub enum GlobOutcome {
    /// The pattern is malformed.
    BadPattern,
    /// The matches; none in place of one that could not be read.
    Matches(Vec<Option<Vec<u8>>>),
}

/// The matches that could be read.
pub open spec fn readable(found: Seq<Option<Vec<u8>>>) -> Seq<Seq<u8>>
    decreases found.len(),
{
    if found.len() == 0 {
        Seq::empty()
    } else {
        match found.last() {
            Some(path) => readable(found.drop_last()).push(path@),
            None => readable(found.drop_last()),
        }
    }
}

/// The paths that an outcome offers.
pub open spec fn offered(outcome: GlobOutcome) -> Seq<Seq<u8>> {
    match outcome {
        GlobOutcome::BadPattern => Seq::empty(),
        GlobOutcome::Matches(found) => readable(found@),
    }
}

/// The paths that a pattern stands for: its matches in the order of paths, or the pattern itself
/// where it has none.
pub fn expand_glob(pattern: &str, outcome: GlobOutcome) -> (r: Vec<Vec<u8>>)
    ensures
        offered(outcome).len() == 0 ==> byte_views(r@) == seq![encode_utf8(pattern@)],
        offered(outcome).len() > 0 ==> sorted_from(offered(outcome), byte_views(r@)),
        r@.len() > 0,
{
    let mut matches: Vec<Vec<u8>> = Vec::new();
    let ghost all = offered(outcome);
    assert(byte_views(matches@) =~= Seq::empty());
    match outcome {
        GlobOutcome::BadPattern => {},
        GlobOutcome::Matches(found) => {
            assert(byte_views(matches@) == readable(found@.take(0)));
            for i in 0..found.len()
                invariant
                    byte_views(matches@) == readable(found@.take(i as int)),
            {
                let ghost done = byte_views(matches@);
                assert(found@.take(i + 1).drop_last() =~= found@.take(i as int));
                if let Some(path) = &found[i] {
                    matches.push(slice_to_vec(path.as_slice()));
                    assert(byte_views(matches@) =~= done.push(path@));
                }
            }
            assert(found@.take(found@.len() as int) =~= found@);
        },
    }
    assert(byte_views(matches@) == all);
    if matches.len() == 0 {
        let mut r: Vec<Vec<u8>> = Vec::new();
        r.push(slice_to_vec(pattern.as_bytes()));
        assert(byte_views(r@) =~= seq![encode_utf8(pattern@)]);
        return r;
    }
    let r = sort_paths(matches);
    proof {
        let places = choose|places: Seq<int>| #[trigger]
            crate::order::stable_sort(all, byte_views(r@), places);
        assert(byte_views(r@).len() == all.len());
    }
    r
}

/// Words as byte strings.
pub open spec fn oss(words: Seq<&'static str>) -> Seq<Seq<u8>> {
    words.map_values(|w: &'static str| encode_utf8(w@))
}

/// Appends words.
pub fn push_words(list: &mut Vec<Vec<u8>>, words: &[&'static str])
    ensures
        byte_views(final(list)@) == byte_views(old(list)@) + oss(words@),
{
    let ghost before = byte_views(list@);
    let ghost all = oss(words@);
    assert(before + all.take(0) =~= before);
    for i in 0..words.len()
        invariant
            all == oss(words@),
            byte_views(list@) == before + all.take(i as int),
    {
        let ghost done = byte_views(list@);
        list.push(slice_to_vec(words[i].as_bytes()));
        assert(byte_views(list@) =~= done.push(all[i as int]));
        assert(before + all.take(i + 1) =~= (before + all.take(i as int)).push(all[i as int]));
    }
    assert(all.take(all.len() as int) =~= all);
}

/// System paths that the sandbox can read.
pub open spec fn default_ro_paths() -> Seq<&'static str> {
    seq![
        "/etc/alternatives",
        "/etc/resolv.conf",
        "/etc/ssl",
        "/etc/hosts",
        "/etc/pki",
        "/etc/pkcs11",
        "/etc/ld.so.cache",
        "/etc/ld.so.conf.d",
        "/etc/localtime",
        "/etc/os-release",
        "/etc/timezone",
        "/lib",
        "/lib64",
        "/run/dbus/system_bus_socket",
        "/usr",
    ]
}

/// System paths that the sandbox can write.
pub open spec fn default_rw_paths() -> Seq<&'static str> {
    seq!["/etc/ld.so.conf.d"]
}

/// The views of lists of paths.
pub open spec fn list_views(lists: Seq<Vec<Vec<u8>>>) -> Seq<Seq<Seq<u8>>> {
    lists.map_values(|list: Vec<Vec<u8>>| byte_views(list@))
}

/// The paths to bind for reading: those that the listed patterns stand for, one pattern after
/// another, then the system paths.
pub fn ro_bind_paths(expanded: Vec<Vec<Vec<u8>>>) -> (r: Vec<Vec<u8>>)
    ensures
        byte_views(r@) == list_views(expanded@).flatten() + oss(default_ro_paths()),
{
    let ghost lists = list_views(expanded@);
    let mut r: Vec<Vec<u8>> = Vec::new();
    proof {
        assert(lists.take(0) =~= Seq::empty());
        assert(byte_views(r@) =~= lists.take(0).flatten());
    }
    for i in 0..expanded.len()
        invariant
            lists == list_views(expanded@),
            byte_views(r@) == lists.take(i as int).flatten(),
    {
        let ghost done = byte_views(r@);
        let ghost list = byte_views(expanded@[i as int]@);
        assert(done + list.take(0) =~= done);
        let paths = &expanded[i];
        for j in 0..paths.len()
            invariant
                list == byte_views(paths@),
                byte_views(r@) == done + list.take(j as int),
        {
            let ghost so_far = byte_views(r@);
            r.push(slice_to_vec(paths[j].as_slice()));
            assert(byte_views(r@) =~= so_far.push(list[j as int]));
            assert(done + list.take(j + 1) =~= (done + list.take(j as int)).push(list[j as int]));
        }
        proof {
            assert(list.take(list.len() as int) =~= list);
            assert(lists.take(i + 1) =~= lists.take(i as int).push(list));
            lists.take(i as int).lemma_flatten_push(list);
        }
    }
    assert(lists.take(lists.len() as int) =~= lists);
    let defaults = [
        "/etc/alternatives",
        "/etc/resolv.conf",
        "/etc/ssl",
        "/etc/hosts",
        "/etc/pki",
        "/etc/pkcs11",
        "/etc/ld.so.cache",
        "/etc/ld.so.conf.d",
        "/etc/localtime",
        "/etc/os-release",
        "/etc/timezone",
        "/lib",
        "/lib64",
        "/run/dbus/system_bus_socket",
        "/usr",
    ];
    assert(defaults@ =~= default_ro_paths());
    push_words(&mut r, &defaults);
    r
}

/// The paths to bind for writing.
pub fn rw_bind_paths() -> (r: Vec<Vec<u8>>)
    ensures
        byte_views(r@) == oss(default_rw_paths()),
{
    let mut r: Vec<Vec<u8>> = Vec::new();
    let defaults = ["/etc/ld.so.conf.d"];
    assert(defaults@ =~= default_rw_paths());
    push_words(&mut r, &defaults);
    assert(byte_views(r@) =~= oss(default_rw_paths()));
    r
}

/// Matches are read one by one; one that could not be read is left out.
pub proof fn law_readable(found: Vec<Option<Vec<u8>>>, more: Seq<Option<Vec<u8>>>, path: Vec<u8>)
    ensures
        readable(Seq::empty()) == Seq::<Seq<u8>>::empty(),
        readable(more.push(Some(path))) == readable(more).push(path@),
        readable(more.push(None)) == readable(more),
        offered(GlobOutcome::Matches(found)) == readable(found@),
        offered(GlobOutcome::BadPattern) == Seq::<Seq<u8>>::empty(),
{
    assert(more.push(Some(path)).drop_last() =~= more);
    assert(more.push(None).drop_last() =~= more);
}

/// Words are encoded one by one, and lists of paths are viewed one by one.
pub proof fn law_list_views(words: Seq<&'static str>, lists: Seq<Vec<Vec<u8>>>)
    ensures
        oss(words).len() == words.len(),
        forall|i: int| 0 <= i < words.len() ==> #[trigger] oss(words)[i] == encode_utf8(words[i]@),
        list_views(lists).len() == lists.len(),
        forall|i: int|
            0 <= i < lists.len() ==> #[trigger] list_views(lists)[i] == byte_views(lists[i]@),
{
}

/// The sandbox can read the system: its programs and libraries, and what they need to find names,
/// hosts, certificates and the time. It can write one path of these.
pub proof fn law_system_paths()
    ensures
        default_ro_paths().len() == 15,
        default_ro_paths()[0]@ == "/etc/alternatives"@,
        default_ro_paths()[1]@ == "/etc/resolv.conf"@,
        default_ro_paths()[2]@ == "/etc/ssl"@,
        default_ro_paths()[3]@ == "/etc/hosts"@,
        default_ro_paths()[4]@ == "/etc/pki"@,
        default_ro_paths()[5]@ == "/etc/pkcs11"@,
        default_ro_paths()[6]@ == "/etc/ld.so.cache"@,
        default_ro_paths()[7]@ == "/etc/ld.so.conf.d"@,
        default_ro_paths()[8]@ == "/etc/localtime"@,
        default_ro_paths()[9]@ == "/etc/os-release"@,
        default_ro_paths()[10]@ == "/etc/timezone"@,
        default_ro_paths()[11]@ == "/lib"@,
        default_ro_paths()[12]@ == "/lib64"@,
        default_ro_paths()[13]@ == "/run/dbus/system_bus_socket"@,
        default_ro_paths()[14]@ == "/usr"@,
        default_rw_paths().len() == 1,
        default_rw_paths()[0]@ == "/etc/ld.so.conf.d"@,
{
}

/// A pattern that offers nothing stands for itself; any other one stands for exactly what it
/// offers, in the order of paths.
pub proof fn law_expanded(pattern: &str, matched: GlobOutcome, r: Vec<Vec<u8>>)
    requires
        call_ensures(expand_glob, (pattern, matched), r),
    ensures
        offered(matched).len() == 0 ==> r@.len() == 1 && r@[0]@ == encode_utf8(pattern@),
        offered(matched).len() > 0 ==> byte_views(r@).to_multiset() == offered(
            matched,
        ).to_multiset(),
        forall|i: int, j: int|
            0 <= i < j < r@.len() ==> !path_before((#[trigger] r@[j])@, (#[trigger] r@[i])@),
{
    let views = byte_views(r@);
    assert(views.len() == r@.len());
    if offered(matched).len() > 0 {
        crate::order::law_sorted(offered(matched), views);
        assert forall|i: int, j: int| 0 <= i < j < r@.len() implies !path_before(
            (#[trigger] r@[j])@,
            (#[trigger] r@[i])@,
        ) by {
            assert(views[i] == r@[i]@ && views[j] == r@[j]@);
        }
    } else {
        assert(views[0] == r@[0]@);
    }
}

/// The paths to read are those of each pattern, pattern by pattern, and last the system's.
pub proof fn law_patterns_before_system(
    expanded: Vec<Vec<Vec<u8>>>,
    list: Vec<Vec<u8>>,
    more: Vec<Vec<Vec<u8>>>,
    r: Vec<Vec<u8>>,
    grown: Vec<Vec<u8>>,
)
    requires
        more@ == expanded@.push(list),
        call_ensures(ro_bind_paths, (expanded,), r),
        call_ensures(ro_bind_paths, (more,), grown),
    ensures
        ({
            let system = oss(default_ro_paths());
            let n = byte_views(r@).len() - system.len();
            &&& byte_views(r@).skip(n) == system
            &&& byte_views(grown@) == byte_views(r@).take(n) + byte_views(list@) + system
            &&& expanded@.len() == 0 ==> n == 0
        }),
{
    let lists = list_views(expanded@);
    let system = oss(default_ro_paths());
    let n = byte_views(r@).len() - system.len();
    assert(list_views(more@) =~= lists.push(byte_views(list@)));
    lists.lemma_flatten_push(byte_views(list@));
    assert(byte_views(r@).take(n) =~= lists.flatten());
    assert(byte_views(r@).skip(n) =~= system);
    if expanded@.len() == 0 {
        assert(lists =~= Seq::empty());
    }
}

} // verus!
