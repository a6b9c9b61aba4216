//! Environment variables: environment blocks, maps and sets of names, and the environment that a
//! sandbox starts from.
use vstd::prelude::*;
use vstd::slice::slice_to_vec;
use vstd::string::*;

use crate::decimal::{decimal, decimal_text};
use crate::passthrough::{at_places, subsequence};
use crate::pieces::{byte_views, bytes_eq, find_byte, first_index, split, split_bytes};
use crate::text::{decode_lossy, lossy, text_eq, text_views};

verus! {

pub const EQUALS: u8 = 0x3d;

/// A key and its value, both as sequences.
pub type Pair = (Seq<u8>, Seq<u8>);

/// A variable with its name as text.
pub type Named = (Seq<char>, Seq<u8>);

/// The views of a sequence of keys with values.
pub open spec fn pair_views(v: Seq<(Vec<u8>, Vec<u8>)>) -> Seq<Pair> {
    v.map_values(|p: (Vec<u8>, Vec<u8>)| (p.0@, p.1@))
}

/// The key and value of one entry: what stands before and after its first equals sign.
pub open spec fn entry(piece: Seq<u8>) -> Option<Pair> {
    let i = first_index(piece, EQUALS);
    if i < piece.len() {
        Some((piece.take(i), piece.skip(i + 1)))
    } else {
        None
    }
}

/// The keys and values of entries, in order. An entry without an equals sign is passed over.
pub open spec fn entries(pieces: Seq<Seq<u8>>) -> Seq<Pair>
    decreases pieces.len(),
{
    if pieces.len() == 0 {
        Seq::empty()
    } else {
        match entry(pieces.last()) {
            Some(pair) => entries(pieces.drop_last()).push(pair),
            None => entries(pieces.drop_last()),
        }
    }
}

/// The keys and values of an environment block, whose entries end with a zero byte.
pub open spec fn block_entries(data: Seq<u8>) -> Seq<Pair> {
    entries(split(data, 0u8))
}

/// The map that a sequence of keys with values makes: the last value of a key counts.
pub open spec fn overlay(pairs: Seq<Pair>) -> Map<Seq<u8>, Seq<u8>>
    decreases pairs.len(),
{
    if pairs.len() == 0 {
        Map::empty()
    } else {
        overlay(pairs.drop_last()).insert(pairs.last().0, pairs.last().1)
    }
}

pub open spec fn distinct_keys(pairs: Seq<Pair>) -> bool {
    forall|i: int, j: int| 0 <= i < j < pairs.len() ==> #[trigger] pairs[i].0 != #[trigger] pairs[j].0
}

proof fn lemma_overlay_keys(pairs: Seq<Pair>)
    ensures
        forall|k: Seq<u8>| #[trigger]
            overlay(pairs).contains_key(k) <==> exists|i: int|
                0 <= i < pairs.len() && #[trigger] pairs[i].0 == k,
    decreases pairs.len(),
{
    if pairs.len() > 0 {
        let init = pairs.drop_last();
        lemma_overlay_keys(init);
        assert forall|k: Seq<u8>| #[trigger] overlay(pairs).contains_key(k) <==> exists|i: int|
            0 <= i < pairs.len() && #[trigger] pairs[i].0 == k by {
            if overlay(pairs).contains_key(k) {
                if k == pairs.last().0 {
                    assert(pairs[pairs.len() - 1].0 == k);
                } else {
                    assert(overlay(init).contains_key(k));
                    let i = choose|i: int| 0 <= i < init.len() && #[trigger] init[i].0 == k;
                    assert(pairs[i].0 == k);
                }
            }
            if exists|i: int| 0 <= i < pairs.len() && #[trigger] pairs[i].0 == k {
                let i = choose|i: int| 0 <= i < pairs.len() && #[trigger] pairs[i].0 == k;
                if i < init.len() {
                    assert(init[i].0 == k);
                    assert(overlay(init).contains_key(k));
                }
            }
        }
    }
}

proof fn lemma_overlay_value(pairs: Seq<Pair>, i: int)
    requires
        distinct_keys(pairs),
        0 <= i < pairs.len(),
    ensures
        overlay(pairs).contains_key(pairs[i].0),
        overlay(pairs)[pairs[i].0] == pairs[i].1,
    decreases pairs.len(),
{
    let init = pairs.drop_last();
    if i < init.len() {
        assert(forall|a: int| 0 <= a < init.len() ==> init[a] == pairs[a]);
        lemma_overlay_value(init, i);
        assert(init[i] == pairs[i]);
        assert(pairs[i].0 != pairs[pairs.len() - 1].0);
    }
}

proof fn lemma_overlay_update(pairs: Seq<Pair>, i: int, value: Seq<u8>)
    requires
        distinct_keys(pairs),
        0 <= i < pairs.len(),
    ensures
        overlay(pairs.update(i, (pairs[i].0, value))) == overlay(pairs).insert(pairs[i].0, value),
        distinct_keys(pairs.update(i, (pairs[i].0, value))),
    decreases pairs.len(),
{
    let init = pairs.drop_last();
    let key = pairs[i].0;
    let changed = pairs.update(i, (key, value));
    assert(forall|a: int| 0 <= a < pairs.len() ==> changed[a].0 == pairs[a].0);
    if i == init.len() {
        assert(changed.drop_last() =~= init);
        assert(overlay(changed) =~= overlay(pairs).insert(key, value));
    } else {
        assert(forall|a: int| 0 <= a < init.len() ==> init[a] == pairs[a]);
        lemma_overlay_update(init, i, value);
        assert(changed.drop_last() =~= init.update(i, (key, value)));
        assert(key != pairs[pairs.len() - 1].0);
        assert(overlay(changed) =~= overlay(pairs).insert(key, value));
    }
}

/// The environment that a dotenv file leaves behind: each key once, with its value.
pub struct EnvMap {
    entries: Vec<(Vec<u8>, Vec<u8>)>,
}

impl View for EnvMap {
    type V = Map<Seq<u8>, Seq<u8>>;

    closed spec fn view(&self) -> Map<Seq<u8>, Seq<u8>> {
        overlay(self.pairs())
    }
}

impl EnvMap {
    /// The keys and values, in the order in which the map walks them.
    pub closed spec fn pairs(self) -> Seq<Pair> {
        pair_views(self.entries@)
    }

    #[verifier::type_invariant]
    spec fn well_formed(self) -> bool {
        distinct_keys(self.pairs())
    }

    /// The pairs hold every key of the map once, with its value.
    pub open spec fn pairs_enumerate(self) -> bool {
        distinct_keys(self.pairs()) && overlay(self.pairs()) == self@
    }

    /// The value of `key`, where the map has one.
    pub fn get(&self, key: &[u8]) -> (r: Option<Vec<u8>>)
        ensures
            match r {
                Some(value) => self@.contains_key(key@) && self@[key@] == value@,
                None => !self@.contains_key(key@),
            },
    {
        proof {
            use_type_invariant(self);
            lemma_overlay_keys(self.pairs());
        }
        let ghost pairs = self.pairs();
        for i in 0..self.entries.len()
            invariant
                pairs == self.pairs(),
                distinct_keys(pairs),
                forall|k: int| 0 <= k < i ==> #[trigger] pairs[k].0 != key@,
        {
            assert(pairs[i as int] == (self.entries@[i as int].0@, self.entries@[i as int].1@));
            if bytes_eq(&self.entries[i].0, key) {
                proof {
                    lemma_overlay_value(pairs, i as int);
                }
                return Some(slice_to_vec(self.entries[i].1.as_slice()));
            }
        }
        None
    }
}

/// The map with the entries of an environment block; the last value of a key counts.
pub fn parse_null_separated_env(data: &[u8]) -> (r: EnvMap)
    ensures
        r@ == overlay(block_entries(data@)),
        r.pairs_enumerate(),
{
    let pieces = split_bytes(data, 0);
    let ghost views = split(data@, 0u8);
    let mut all: Vec<(Vec<u8>, Vec<u8>)> = Vec::new();
    proof {
        assert(views.take(0) =~= Seq::empty());
        assert(pair_views(all@) =~= Seq::empty());
    }
    for i in 0..pieces.len()
        invariant
            views == byte_views(pieces@),
            distinct_keys(pair_views(all@)),
            overlay(pair_views(all@)) == overlay(entries(views.take(i as int))),
    {
        assert(views[i as int] == pieces@[i as int]@);
        assert(views.take(i + 1).drop_last() =~= views.take(i as int));
        match cut_entry(&pieces[i]) {
            Some((key, value)) => {
                proof {
                    let before = entries(views.take(i as int));
                    assert(before.push((key@, value@)).drop_last() =~= before);
                }
                put(&mut all, key, value);
            },
            None => {},
        }
    }
    assert(views.take(views.len() as int) =~= views);
    EnvMap { entries: all }
}

/// Cuts an entry at its first equals sign.
fn cut_entry(piece: &[u8]) -> (r: Option<(Vec<u8>, Vec<u8>)>)
    ensures
        match r {
            Some((key, value)) => entry(piece@) == Some((key@, value@)),
            None => entry(piece@) is None,
        },
{
    let i = find_byte(piece, EQUALS);
    if i < piece.len() {
        let key = slice_to_vec(&piece[0..i]);
        let value = slice_to_vec(&piece[i + 1..piece.len()]);
        assert(key@ =~= piece@.take(i as int));
        assert(value@ =~= piece@.skip(i + 1));
        Some((key, value))
    } else {
        proof {
            crate::pieces::law_first_index(piece@, EQUALS);
        }
        None
    }
}

/// Gives `key` the value `value`, in place of the value it had.
fn put(all: &mut Vec<(Vec<u8>, Vec<u8>)>, key: Vec<u8>, value: Vec<u8>)
    requires
        distinct_keys(pair_views(old(all)@)),
    ensures
        distinct_keys(pair_views(final(all)@)),
        overlay(pair_views(final(all)@)) == overlay(pair_views(old(all)@)).insert(key@, value@),
{
    let ghost pairs = pair_views(all@);
    let n = all.len();
    for i in 0..n
        invariant
            n == all.len(),
            all@ == old(all)@,
            pairs == pair_views(all@),
            distinct_keys(pairs),
            forall|k: int| 0 <= k < i ==> #[trigger] pairs[k].0 != key@,
    {
        assert(pairs[i as int] == (all@[i as int].0@, all@[i as int].1@));
        if bytes_eq(&all[i].0, &key) {
            proof {
                lemma_overlay_update(pairs, i as int, value@);
            }
            let ghost pair = (key@, value@);
            all[i] = (key, value);
            assert(pair_views(all@) =~= pairs.update(i as int, pair));
            return ;
        }
    }
    let ghost pair = (key@, value@);
    all.push((key, value));
    assert(pair_views(all@) =~= pairs.push(pair));
    assert(pairs.push(pair).drop_last() =~= pairs);
}

/// A set of names.
pub struct NameSet {
    names: Vec<String>,
}

impl View for NameSet {
    type V = Set<Seq<char>>;

    closed spec fn view(&self) -> Set<Seq<char>> {
        text_views(self.names@).to_set()
    }
}

impl NameSet {
    pub fn new() -> (r: NameSet)
        ensures
            r@ == Set::<Seq<char>>::empty(),
    {
        let r = NameSet { names: Vec::new() };
        assert(r@ =~= Set::<Seq<char>>::empty());
        r
    }

    pub fn contains(&self, name: &str) -> (r: bool)
        ensures
            r == self@.contains(name@),
    {
        let ghost views = text_views(self.names@);
        for i in 0..self.names.len()
            invariant
                views == text_views(self.names@),
                forall|k: int| 0 <= k < i ==> #[trigger] views[k] != name@,
        {
            assert(views[i as int] == self.names@[i as int]@);
            if text_eq(&self.names[i], name) {
                assert(views.contains(name@));
                return true;
            }
        }
        assert(!views.contains(name@));
        false
    }

    /// Adds a name, and says whether it is new.
    pub fn insert(&mut self, name: String) -> (r: bool)
        ensures
            final(self)@ == old(self)@.insert(name@),
            r == !old(self)@.contains(name@),
    {
        if self.contains(&name) {
            assert(self@ =~= old(self)@.insert(name@));
            return false;
        }
        let ghost views = text_views(self.names@);
        let ghost added = name@;
        self.names.push(name);
        proof {
            assert(text_views(self.names@) =~= views.push(added));
            views.lemma_push_to_set_commute(added);
        }
        true
    }
}

/// An environment variable. The name is the text shown for its bytes.
pub struct EnvVar {
    pub name: String,
    pub value: Vec<u8>,
}

/// The views of a sequence of variables.
pub open spec fn var_views(v: Seq<EnvVar>) -> Seq<Named> {
    v.map_values(|x: EnvVar| (x.name@, x.value@))
}

/// Variables with the text shown for their keys as names.
pub open spec fn named(pairs: Seq<Pair>) -> Seq<Named> {
    pairs.map_values(|p: Pair| (lossy(p.0), p.1))
}

/// The names of variables.
pub open spec fn names(vars: Seq<Named>) -> Seq<Seq<char>> {
    vars.map_values(|v: Named| v.0)
}

/// The variables without those whose name occurs earlier.
pub open spec fn first_of_each(vars: Seq<Named>) -> Seq<Named>
    decreases vars.len(),
{
    if vars.len() == 0 {
        Seq::empty()
    } else {
        let kept = first_of_each(vars.drop_last());
        if names(kept).contains(vars.last().0) {
            kept
        } else {
            kept.push(vars.last())
        }
    }
}

/// The variables of an environment block, in its order.
pub fn block_vars(data: &[u8]) -> (r: Vec<EnvVar>)
    ensures
        var_views(r@) == named(block_entries(data@)),
{
    let pieces = split_bytes(data, 0);
    let ghost views = split(data@, 0u8);
    let mut r: Vec<EnvVar> = Vec::new();
    assert(views.take(0) =~= Seq::empty());
    assert(var_views(r@) =~= named(entries(views.take(0))));
    for i in 0..pieces.len()
        invariant
            views == byte_views(pieces@),
            var_views(r@) == named(entries(views.take(i as int))),
    {
        let ghost before = entries(views.take(i as int));
        let ghost done = var_views(r@);
        assert(views[i as int] == pieces@[i as int]@);
        assert(views.take(i + 1).drop_last() =~= views.take(i as int));
        if let Some((key, value)) = cut_entry(&pieces[i]) {
            let name = decode_lossy(&key);
            let ghost pair = (name@, value@);
            assert(named(before.push((key@, value@))) =~= named(before).push(pair));
            r.push(EnvVar { name, value });
            assert(var_views(r@) =~= done.push(pair));
        }
    }
    assert(views.take(views.len() as int) =~= views);
    r
}

/// Variables with the text shown for their keys as names.
pub fn name_vars(pairs: &Vec<(Vec<u8>, Vec<u8>)>) -> (r: Vec<EnvVar>)
    ensures
        var_views(r@) == named(pair_views(pairs@)),
{
    let ghost all = pair_views(pairs@);
    let mut r: Vec<EnvVar> = Vec::new();
    assert(var_views(r@) =~= named(all.take(0)));
    for i in 0..pairs.len()
        invariant
            all == pair_views(pairs@),
            var_views(r@) == named(all.take(i as int)),
    {
        let ghost done = var_views(r@);
        assert(all[i as int] == (pairs@[i as int].0@, pairs@[i as int].1@));
        let name = decode_lossy(&pairs[i].0);
        let value = slice_to_vec(pairs[i].1.as_slice());
        let ghost pair = (name@, value@);
        r.push(EnvVar { name, value });
        assert(var_views(r@) =~= done.push(pair));
        assert(named(all.take(i + 1)) =~= named(all.take(i as int)).push(pair));
    }
    assert(all.take(all.len() as int) =~= all);
    r
}

/// The names of variables.
pub fn name_set(vars: &Vec<EnvVar>) -> (r: NameSet)
    ensures
        r@ == names(var_views(vars@)).to_set(),
{
    let ghost all = names(var_views(vars@));
    let mut r = NameSet::new();
    assert(r@ =~= all.take(0).to_set());
    for i in 0..vars.len()
        invariant
            all == names(var_views(vars@)),
            r@ == all.take(i as int).to_set(),
    {
        assert(all[i as int] == vars@[i as int].name@);
        proof {
            assert(all.take(i + 1) =~= all.take(i as int).push(all[i as int]));
            all.take(i as int).lemma_push_to_set_commute(all[i as int]);
        }
        r.insert(vars[i].name.clone());
    }
    assert(all.take(all.len() as int) =~= all);
    r
}

/// The names in an environment block; none where the block could not be read.
pub fn environ_names(data: Option<Vec<u8>>) -> (r: NameSet)
    ensures
        r@ == match data {
            Some(block) => names(named(block_entries(block@))).to_set(),
            None => Set::empty(),
        },
{
    match data {
        Some(block) => name_set(&block_vars(&block)),
        None => NameSet::new(),
    }
}

/// The file with the environment block of a process.
pub fn environ_path(pid: u32) -> (r: String)
    ensures
        r@ == "/proc/"@ + decimal(pid as nat) + "/environ"@,
{
    let mut r = "/proc/".to_string();
    r.append(&decimal_text(pid));
    r.append("/environ");
    r
}

/// The variables without those whose name occurs earlier.
pub fn first_values(vars: Vec<EnvVar>) -> (r: Vec<EnvVar>)
    ensures
        var_views(r@) == first_of_each(var_views(vars@)),
{
    let ghost all = var_views(vars@);
    let mut r: Vec<EnvVar> = Vec::new();
    let mut seen = NameSet::new();
    assert(var_views(r@) =~= first_of_each(all.take(0)));
    assert(seen@ =~= names(var_views(r@)).to_set());
    for i in 0..vars.len()
        invariant
            all == var_views(vars@),
            seen@ == names(var_views(r@)).to_set(),
            var_views(r@) == first_of_each(all.take(i as int)),
    {
        let ghost before = var_views(r@);
        let ghost var = all[i as int];
        assert(var == (vars@[i as int].name@, vars@[i as int].value@));
        assert(all.take(i + 1).drop_last() =~= all.take(i as int));
        if seen.insert(vars[i].name.clone()) {
            let name = vars[i].name.clone();
            let value = slice_to_vec(vars[i].value.as_slice());
            r.push(EnvVar { name, value });
            proof {
                assert(var_views(r@) =~= before.push(var));
                assert(names(before.push(var)) =~= names(before).push(var.0));
                names(before).lemma_push_to_set_commute(var.0);
            }
        } else {
            assert(names(before).to_set().insert(var.0) =~= names(before).to_set());
        }
    }
    assert(all.take(all.len() as int) =~= all);
    r
}

/// The environment of the running process: the entries of its environment block in their order,
/// then the variables it has set since. The first value of a name counts.
pub fn current_env(environ: &[u8], vars: &Vec<(Vec<u8>, Vec<u8>)>) -> (r: Vec<EnvVar>)
    ensures
        var_views(r@) == first_of_each(
            named(block_entries(environ@)) + named(pair_views(vars@)),
        ),
{
    let mut all = block_vars(environ);
    let mut later = name_vars(vars);
    let ghost block = var_views(all@);
    let ghost rest = var_views(later@);
    all.append(&mut later);
    assert(var_views(all@) =~= block + rest);
    first_values(all)
}

/// The variables of a dotenv environment, in the order in which the map walks them.
pub fn dotenv_env(map: &EnvMap) -> (r: Vec<EnvVar>)
    ensures
        var_views(r@) == named(map.pairs()),
        map.pairs_enumerate(),
{
    proof {
        use_type_invariant(map);
    }
    name_vars(&map.entries)
}

/// Where the variables for a sandbox come from.
pub enum EnvSource {
    /// From the dotenv file: these.
    Dotenv(Vec<EnvVar>),
    /// From the environment of the running process, which is to be read.
    Process,
}

/// The variables for a sandbox: those of the dotenv environment where there is one, even an empty
/// one, and those of the process otherwise.
pub open spec fn caller_vars(dotenv: Option<EnvMap>, process: Seq<Named>) -> Seq<Named> {
    match dotenv {
        Some(map) => named(map.pairs()),
        None => process,
    }
}

/// Decides where the variables for a sandbox come from.
pub fn env_source(dotenv: &Option<EnvMap>) -> (r: EnvSource)
    ensures
        match r {
            EnvSource::Dotenv(vars) => {
                &&& *dotenv is Some
                &&& (*dotenv)->0.pairs_enumerate()
                &&& var_views(vars@) == named((*dotenv)->0.pairs())
            },
            EnvSource::Process => *dotenv is None,
        },
{
    match dotenv {
        Some(map) => EnvSource::Dotenv(dotenv_env(map)),
        None => EnvSource::Process,
    }
}

/// A dotenv environment replaces that of the process as a whole.
pub proof fn law_dotenv_replaces_process(map: EnvMap, one: Seq<Named>, other: Seq<Named>)
    ensures
        caller_vars(Some(map), one) == caller_vars(Some(map), other),
{
}

/// Where the first value of each name is kept, no name occurs twice.
pub proof fn law_names_once(vars: Seq<Named>)
    ensures
        names(first_of_each(vars)).no_duplicates(),
    decreases vars.len(),
{
    if vars.len() > 0 {
        let kept = first_of_each(vars.drop_last());
        law_names_once(vars.drop_last());
        if !names(kept).contains(vars.last().0) {
            assert(names(kept.push(vars.last())) =~= names(kept).push(vars.last().0));
        }
    }
}

/// Where the first value of each name is kept, every variable is there unless an earlier one has
/// its name, and then that one is.
pub proof fn law_first_value_kept(vars: Seq<Named>, i: int)
    requires
        0 <= i < vars.len(),
        forall|k: int| 0 <= k < i ==> (#[trigger] vars[k]).0 != vars[i].0,
    ensures
        first_of_each(vars).contains(vars[i]),
    decreases vars.len(),
{
    let init = vars.drop_last();
    let kept = first_of_each(init);
    if i < init.len() {
        assert(init[i] == vars[i]);
        assert(forall|k: int| 0 <= k < i ==> (#[trigger] init[k]) == vars[k]);
        law_first_value_kept(init, i);
        let k = choose|k: int| 0 <= k < kept.len() && kept[k] == vars[i];
        assert(kept.push(vars.last())[k] == vars[i]);
    } else {
        lemma_kept_from(init);
        if names(kept).contains(vars[i].0) {
            let k = choose|k: int| 0 <= k < names(kept).len() && names(kept)[k] == vars[i].0;
            assert(kept[k].0 == vars[i].0);
            assert(init.contains(kept[k]));
            let j = choose|j: int| 0 <= j < init.len() && init[j] == kept[k];
            assert(vars[j].0 == vars[i].0);
        }
        assert(kept.push(vars[i])[kept.len() as int] == vars[i]);
    }
}

proof fn lemma_kept_from(vars: Seq<Named>)
    ensures
        forall|k: int|
            0 <= k < first_of_each(vars).len() ==> vars.contains(#[trigger] first_of_each(vars)[k]),
    decreases vars.len(),
{
    if vars.len() > 0 {
        let init = vars.drop_last();
        lemma_kept_from(init);
        assert forall|k: int| 0 <= k < first_of_each(vars).len() implies vars.contains(
            #[trigger] first_of_each(vars)[k],
        ) by {
            let v = first_of_each(vars)[k];
            if k < first_of_each(init).len() {
                assert(v == first_of_each(init)[k]);
                let j = choose|j: int| 0 <= j < init.len() && init[j] == v;
                assert(vars[j] == v);
            } else {
                assert(vars[vars.len() - 1] == v);
            }
        }
    }
}

/// An entry of an environment block.
pub open spec fn written(pair: Pair) -> Seq<u8> {
    pair.0.push(EQUALS) + pair.1
}

/// An environment block: the entries with a zero byte after each.
pub open spec fn written_block(pairs: Seq<Pair>) -> Seq<u8>
    decreases pairs.len(),
{
    if pairs.len() == 0 {
        Seq::empty()
    } else {
        (written_block(pairs.drop_last()) + written(pairs.last())).push(0u8)
    }
}

/// A key or value that can stand in an environment: keys hold no equals sign, and neither holds
/// a zero byte.
pub open spec fn writable(pair: Pair) -> bool {
    &&& !pair.0.contains(EQUALS)
    &&& !pair.0.contains(0u8)
    &&& !pair.1.contains(0u8)
}

/// Reading an environment block undoes writing it.
pub proof fn law_block_round_trip(pairs: Seq<Pair>)
    requires
        forall|i: int| 0 <= i < pairs.len() ==> writable(#[trigger] pairs[i]),
    ensures
        block_entries(written_block(pairs)) == pairs,
{
    lemma_block_split(pairs);
    let pieces = split(written_block(pairs), 0u8);
    let texts = pairs.map_values(|p: Pair| written(p));
    assert(pieces.drop_last() =~= texts);
    crate::pieces::lemma_first_index_at(pieces.last(), EQUALS, 0);
    lemma_entries_written(pairs);
}

proof fn lemma_written_without_zero(pair: Pair)
    requires
        writable(pair),
    ensures
        forall|k: int| 0 <= k < written(pair).len() ==> #[trigger] written(pair)[k] != 0u8,
{
    let (key, value) = pair;
    let entry = written(pair);
    assert forall|k: int| 0 <= k < entry.len() implies #[trigger] entry[k] != 0u8 by {
        if k < key.len() {
            assert(key.contains(key[k]));
            assert(entry[k] == key[k]);
        } else if k > key.len() {
            assert(value.contains(value[k - key.len() - 1]));
        }
    }
}

proof fn lemma_block_split(pairs: Seq<Pair>)
    requires
        forall|i: int| 0 <= i < pairs.len() ==> writable(#[trigger] pairs[i]),
    ensures
        split(written_block(pairs), 0u8) == pairs.map_values(|p: Pair| written(p)).push(
            Seq::<u8>::empty(),
        ),
    decreases pairs.len(),
{
    let texts = pairs.map_values(|p: Pair| written(p));
    if pairs.len() == 0 {
        assert(texts.push(Seq::<u8>::empty()) =~= seq![Seq::<u8>::empty()]);
    } else {
        let init = pairs.drop_last();
        let before = init.map_values(|p: Pair| written(p));
        let entry = written(pairs.last());
        lemma_block_split(init);
        assert(writable(pairs[pairs.len() - 1]));
        lemma_written_without_zero(pairs.last());
        lemma_split_extend(written_block(init), before, entry);
        let whole = written_block(init) + entry;
        assert(whole.push(0u8).drop_last() =~= whole);
        assert(before.push(entry) =~= texts);
    }
}

proof fn lemma_split_extend(s: Seq<u8>, before: Seq<Seq<u8>>, entry: Seq<u8>)
    requires
        split(s, 0u8) == before.push(Seq::<u8>::empty()),
        forall|k: int| 0 <= k < entry.len() ==> entry[k] != 0u8,
    ensures
        split(s + entry, 0u8) == before.push(entry),
    decreases entry.len(),
{
    if entry.len() == 0 {
        assert(s + entry =~= s);
        assert(entry =~= Seq::<u8>::empty());
    } else {
        let shorter = entry.drop_last();
        lemma_split_extend(s, before, shorter);
        assert((s + entry).drop_last() =~= s + shorter);
        assert(before.push(shorter).drop_last() =~= before);
        assert(shorter.push(entry.last()) =~= entry);
    }
}

proof fn lemma_entries_written(pairs: Seq<Pair>)
    requires
        forall|i: int| 0 <= i < pairs.len() ==> writable(#[trigger] pairs[i]),
    ensures
        entries(pairs.map_values(|p: Pair| written(p))) == pairs,
    decreases pairs.len(),
{
    let texts = pairs.map_values(|p: Pair| written(p));
    if pairs.len() > 0 {
        let init = pairs.drop_last();
        let (key, value) = pairs.last();
        let text = written(pairs.last());
        lemma_entries_written(init);
        assert(writable(pairs[pairs.len() - 1]));
        assert(texts.drop_last() =~= init.map_values(|p: Pair| written(p)));
        assert forall|k: int| 0 <= k < key.len() implies text[k] != EQUALS by {
            assert(key.contains(key[k]));
        }
        crate::pieces::lemma_first_index_at(text, EQUALS, key.len() as int);
        assert(text.take(key.len() as int) =~= key);
        assert(text.skip(key.len() as int + 1) =~= value);
        assert(init.push(pairs.last()) =~= pairs);
    } else {
        assert(entries(texts) =~= pairs);
    }
}

proof fn lemma_entries_parts(a: Seq<Seq<u8>>, b: Seq<Seq<u8>>)
    ensures
        entries(a + b) == entries(a) + entries(b),
    decreases b.len(),
{
    if b.len() == 0 {
        assert(a + b =~= a);
        assert(entries(a) + entries(b) =~= entries(a));
    } else {
        lemma_entries_parts(a, b.drop_last());
        assert((a + b).drop_last() =~= a + b.drop_last());
        assert(entries(a + b) =~= entries(a) + entries(b));
    }
}

/// An environment block is read entry by entry: what stands after a zero byte is read as if it
/// stood alone.
pub proof fn law_block_entry_by_entry(a: Seq<u8>, b: Seq<u8>)
    ensures
        block_entries(a + seq![0u8] + b) == block_entries(a) + block_entries(b),
{
    crate::pieces::law_split_at_separator(a, b, 0u8);
    lemma_entries_parts(split(a, 0u8), split(b, 0u8));
    assert(a + seq![0u8] + b =~= a.push(0u8) + b);
}

/// A single entry gives what stands before its first equals sign and all that stands after it;
/// one without an equals sign gives nothing.
pub proof fn law_single_entry(key: Seq<u8>, value: Seq<u8>)
    requires
        !key.contains(EQUALS),
        !key.contains(0u8),
        !value.contains(0u8),
    ensures
        block_entries(key + seq![EQUALS] + value) == seq![(key, value)],
        block_entries(key) == Seq::<Pair>::empty(),
{
    let pair = (key, value);
    let text = written(pair);
    lemma_written_without_zero(pair);
    crate::pieces::lemma_split_plain(text, 0u8);
    assert(key + seq![EQUALS] + value =~= text);
    assert(seq![pair].map_values(|p: Pair| written(p)) =~= seq![text]);
    lemma_entries_written(seq![pair]);
    crate::pieces::lemma_split_plain(key, 0u8);
    assert forall|k: int| 0 <= k < key.len() implies key[k] != EQUALS by {
        assert(key.contains(key[k]));
    }
    crate::pieces::lemma_first_index_at(key, EQUALS, key.len() as int);
    assert(seq![key].drop_last() =~= Seq::empty());
    assert(entry(seq![key].last()) is None);
    assert(entries(seq![key].drop_last()) =~= Seq::<Pair>::empty());
}

/// The last value of a key counts, and a key is there only where some pair has it.
pub proof fn law_last_value_counts(pairs: Seq<Pair>, i: int)
    requires
        0 <= i < pairs.len(),
        forall|k: int| i < k < pairs.len() ==> (#[trigger] pairs[k]).0 != pairs[i].0,
    ensures
        overlay(pairs).contains_key(pairs[i].0),
        overlay(pairs)[pairs[i].0] == pairs[i].1,
        forall|key: Seq<u8>| #[trigger]
            overlay(pairs).contains_key(key) ==> exists|k: int|
                0 <= k < pairs.len() && #[trigger] pairs[k].0 == key,
        overlay(Seq::<Pair>::empty()) == Map::<Seq<u8>, Seq<u8>>::empty(),
    decreases pairs.len(),
{
    lemma_overlay_keys(pairs);
    if i < pairs.len() - 1 {
        let init = pairs.drop_last();
        assert(forall|k: int| 0 <= k < init.len() ==> #[trigger] init[k] == pairs[k]);
        law_last_value_counts(init, i);
        assert(pairs[pairs.len() - 1].0 != pairs[i].0);
    }
}

/// The pairs of a dotenv environment are its keys with their values, each key once.
pub proof fn law_pairs_list_the_map(map: EnvMap, key: Seq<u8>)
    requires
        map.pairs_enumerate(),
    ensures
        map@.contains_key(key) <==> exists|i: int|
            0 <= i < map.pairs().len() && #[trigger] map.pairs()[i].0 == key,
        forall|i: int|
            0 <= i < map.pairs().len() && #[trigger] map.pairs()[i].0 == key ==> map.pairs()[i].1
                == map@[key],
        forall|i: int, j: int|
            0 <= i < j < map.pairs().len() ==> #[trigger] map.pairs()[i].0
                != #[trigger] map.pairs()[j].0,
{
    let pairs = map.pairs();
    lemma_overlay_keys(pairs);
    assert forall|i: int| 0 <= i < pairs.len() && #[trigger] pairs[i].0 == key implies pairs[i].1
        == map@[key] by {
        lemma_overlay_value(pairs, i);
    }
}

/// Variables are named one by one: each keeps its place and its value, and is named by the text
/// shown for its key.
pub proof fn law_named(pairs: Seq<Pair>, i: int)
    requires
        0 <= i < pairs.len(),
    ensures
        named(pairs).len() == pairs.len(),
        named(pairs)[i] == (lossy(pairs[i].0), pairs[i].1),
        names(named(pairs)).len() == pairs.len(),
        names(named(pairs))[i] == lossy(pairs[i].0),
{
}

/// The views of pairs and of variables are those of the single ones.
pub proof fn law_variable_views(pairs: Seq<(Vec<u8>, Vec<u8>)>, vars: Seq<EnvVar>)
    ensures
        pair_views(pairs).len() == pairs.len(),
        forall|i: int|
            0 <= i < pairs.len() ==> #[trigger] pair_views(pairs)[i] == (pairs[i].0@, pairs[i].1@),
        var_views(vars).len() == vars.len(),
        forall|i: int|
            0 <= i < vars.len() ==> #[trigger] var_views(vars)[i] == (
                vars[i].name@,
                vars[i].value@,
            ),
{
}

/// A sandbox starts from the variables of the process only where there is no dotenv environment.
pub proof fn law_caller_vars(map: EnvMap, process: Seq<Named>)
    ensures
        caller_vars(None, process) == process,
        caller_vars(Some(map), process).len() == map.pairs().len(),
        forall|i: int|
            0 <= i < map.pairs().len() ==> #[trigger] caller_vars(Some(map), process)[i] == (
                lossy(map.pairs()[i].0),
                map.pairs()[i].1,
            ),
{
}

/// Where the first value of each name is kept, nothing is added, and what is kept keeps its order.
pub proof fn law_kept_in_order(vars: Seq<Named>)
    ensures
        subsequence(first_of_each(vars), vars),
    decreases vars.len(),
{
    let kept = first_of_each(vars);
    if vars.len() == 0 {
        assert(at_places(kept, vars, Seq::empty()));
    } else {
        let init = vars.drop_last();
        let before = first_of_each(init);
        law_kept_in_order(init);
        let places = choose|places: Seq<int>| #[trigger] at_places(before, init, places);
        if names(before).contains(vars.last().0) {
            assert(at_places(kept, vars, places));
        } else {
            assert(at_places(kept, vars, places.push(vars.len() - 1)));
        }
    }
}

/// The names of an environment block are those that the text of some key shows; a block that could
/// not be read has none.
pub proof fn law_names_of_block(block: Vec<u8>, name: Seq<char>, r: NameSet, none: NameSet)
    requires
        call_ensures(environ_names, (Some(block),), r),
        call_ensures(environ_names, (None,), none),
    ensures
        r@.contains(name) <==> exists|i: int|
            0 <= i < block_entries(block@).len() && lossy(
                (#[trigger] block_entries(block@)[i]).0,
            ) == name,
        !none@.contains(name),
{
    let pairs = block_entries(block@);
    let all = names(named(pairs));
    if r@.contains(name) {
        let i = choose|i: int| 0 <= i < all.len() && all[i] == name;
        assert(lossy(pairs[i].0) == name);
    }
    if exists|i: int| 0 <= i < pairs.len() && lossy((#[trigger] pairs[i]).0) == name {
        let i = choose|i: int| 0 <= i < pairs.len() && lossy((#[trigger] pairs[i]).0) == name;
        assert(all[i] == name);
    }
}

/// The environment of the process has each name once. It has the first entry of its block for each
/// name, and of the variables that were set since, the first one for each name that the block
/// lacks.
pub proof fn law_current_env(
    environ: &[u8],
    vars: &Vec<(Vec<u8>, Vec<u8>)>,
    r: Vec<EnvVar>,
    i: int,
)
    requires
        call_ensures(current_env, (environ, vars), r),
    ensures
        names(var_views(r@)).no_duplicates(),
        ({
            let block = block_entries(environ@);
            0 <= i < block.len() && (forall|k: int|
                0 <= k < i ==> lossy((#[trigger] block[k]).0) != lossy(block[i].0)) ==> var_views(
                r@,
            ).contains((lossy(block[i].0), block[i].1))
        }),
        ({
            let block = block_entries(environ@);
            let later = pair_views(vars@);
            0 <= i < later.len() && (forall|k: int|
                0 <= k < block.len() ==> lossy((#[trigger] block[k]).0) != lossy(later[i].0)) && (
            forall|k: int| 0 <= k < i ==> lossy((#[trigger] later[k]).0) != lossy(later[i].0))
                ==> var_views(r@).contains((lossy(later[i].0), later[i].1))
        }),
{
    let block = block_entries(environ@);
    let later = pair_views(vars@);
    let all = named(block) + named(later);
    law_names_once(all);
    if 0 <= i < block.len() && (forall|k: int|
        0 <= k < i ==> lossy((#[trigger] block[k]).0) != lossy(block[i].0)) {
        assert forall|k: int| 0 <= k < i implies (#[trigger] all[k]).0 != all[i].0 by {
            assert(all[k].0 == lossy(block[k].0));
        }
        law_first_value_kept(all, i);
    }
    if 0 <= i < later.len() && (forall|k: int|
        0 <= k < block.len() ==> lossy((#[trigger] block[k]).0) != lossy(later[i].0)) && (forall|
        k: int,
    |
        0 <= k < i ==> lossy((#[trigger] later[k]).0) != lossy(later[i].0)) {
        let n = block.len() + i;
        assert(all[n] == (lossy(later[i].0), later[i].1));
        assert forall|k: int| 0 <= k < n implies (#[trigger] all[k]).0 != all[n].0 by {
            if k < block.len() {
                assert(all[k].0 == lossy(block[k].0));
            } else {
                assert(all[k].0 == lossy(later[k - block.len()].0));
            }
        }
        law_first_value_kept(all, n);
    }
}

} // verus!
