//! The order of paths, and sorting by it.
use vstd::prelude::*;

use crate::path::{components, steps, steps_of, Component, Step};
use crate::pieces::byte_views;

verus! {

/// `a` comes before `b` at position `k`: they agree up to there, and then either `a` ends or its
/// element comes first.
pub open spec fn before_at<T>(a: Seq<T>, b: Seq<T>, lt: spec_fn(T, T) -> bool, k: int) -> bool {
    &&& 0 <= k <= a.len()
    &&& k < b.len()
    &&& forall|j: int| 0 <= j < k ==> a[j] == b[j]
    &&& k < a.len() ==> lt(a[k], b[k])
}

/// Lexicographic order over an order of elements.
pub open spec fn before<T>(a: Seq<T>, b: Seq<T>, lt: spec_fn(T, T) -> bool) -> bool {
    exists|k: int| #[trigger] before_at(a, b, lt, k)
}

/// A strict total order.
pub open spec fn strict_total<T>(lt: spec_fn(T, T) -> bool) -> bool {
    &&& forall|a: T| !(#[trigger] lt(a, a))
    &&& forall|a: T, b: T, c: T| #[trigger] lt(a, b) && #[trigger] lt(b, c) ==> lt(a, c)
    &&& forall|a: T, b: T| a == b || #[trigger] lt(a, b) || lt(b, a)
}

pub open spec fn byte_order() -> spec_fn(u8, u8) -> bool {
    |a: u8, b: u8| a < b
}

pub open spec fn rank(s: Step) -> int {
    match s {
        Step::RootDir => 0,
        Step::CurDir => 1,
        Step::ParentDir => 2,
        Step::Normal(_) => 3,
    }
}

/// Root, current and parent directory come first, in this order, then names by their bytes.
pub open spec fn step_before(a: Step, b: Step) -> bool {
    match (a, b) {
        (Step::Normal(x), Step::Normal(y)) => before(x, y, byte_order()),
        _ => rank(a) < rank(b),
    }
}

pub open spec fn step_order() -> spec_fn(Step, Step) -> bool {
    |a: Step, b: Step| step_before(a, b)
}

/// Paths are ordered by their steps, not by their bytes.
pub open spec fn path_before(a: Seq<u8>, b: Seq<u8>) -> bool {
    before(steps(a), steps(b), step_order())
}

proof fn lemma_before_irreflexive<T>(a: Seq<T>, lt: spec_fn(T, T) -> bool)
    requires
        strict_total(lt),
    ensures
        !before(a, a, lt),
{
    if before(a, a, lt) {
        let k = choose|k: int| before_at(a, a, lt, k);
        assert(lt(a[k], a[k]));
    }
}

proof fn lemma_before_transitive<T>(a: Seq<T>, b: Seq<T>, c: Seq<T>, lt: spec_fn(T, T) -> bool)
    requires
        strict_total(lt),
        before(a, b, lt),
        before(b, c, lt),
    ensures
        before(a, c, lt),
{
    let k1 = choose|k: int| before_at(a, b, lt, k);
    let k2 = choose|k: int| before_at(b, c, lt, k);
    if k1 < k2 {
        assert(before_at(a, c, lt, k1));
    } else {
        if k1 == k2 && k1 < a.len() {
            assert(lt(a[k1], b[k1]) && lt(b[k1], c[k1]));
        }
        assert(before_at(a, c, lt, k2));
    }
}

proof fn lemma_before_total<T>(a: Seq<T>, b: Seq<T>, lt: spec_fn(T, T) -> bool, k: int)
    requires
        strict_total(lt),
        0 <= k <= a.len(),
        k <= b.len(),
        forall|j: int| 0 <= j < k ==> a[j] == b[j],
    ensures
        a == b || before(a, b, lt) || before(b, a, lt),
    decreases a.len() - k,
{
    if k == a.len() && k == b.len() {
        assert(a =~= b);
    } else if k == a.len() {
        assert(before_at(a, b, lt, k));
    } else if k == b.len() {
        assert(before_at(b, a, lt, k));
    } else if a[k] == b[k] {
        lemma_before_total(a, b, lt, k + 1);
    } else if lt(a[k], b[k]) {
        assert(before_at(a, b, lt, k));
    } else {
        assert(before_at(b, a, lt, k));
    }
}

proof fn lemma_step_order()
    ensures
        strict_total(step_order()),
{
    let lt = step_order();
    assert(strict_total(byte_order()));
    assert forall|a: Step| !(#[trigger] lt(a, a)) by {
        if let Step::Normal(x) = a {
            lemma_before_irreflexive(x, byte_order());
        }
    }
    assert forall|a: Step, b: Step, c: Step| #[trigger] lt(a, b) && #[trigger] lt(
        b,
        c,
    ) implies lt(a, c) by {
        match (a, b, c) {
            (Step::Normal(x), Step::Normal(y), Step::Normal(z)) => {
                lemma_before_transitive(x, y, z, byte_order());
            },
            _ => {},
        }
    }
    assert forall|a: Step, b: Step| a == b || #[trigger] lt(a, b) || lt(b, a) by {
        match (a, b) {
            (Step::Normal(x), Step::Normal(y)) => {
                lemma_before_total(x, y, byte_order(), 0);
            },
            _ => {},
        }
    }
}

/// The order of paths is a strict one: no path comes before itself, and what comes before an
/// earlier path comes before a later one.
pub proof fn law_path_order_strict(a: Seq<u8>, b: Seq<u8>, c: Seq<u8>)
    ensures
        !path_before(a, a),
        path_before(a, b) && path_before(b, c) ==> path_before(a, c),
{
    lemma_step_order();
    lemma_before_irreflexive(steps(a), step_order());
    if path_before(a, b) && path_before(b, c) {
        lemma_before_transitive(steps(a), steps(b), steps(c), step_order());
    }
}

/// Two paths of which neither comes before the other have the same steps.
pub proof fn law_path_order_total(a: Seq<u8>, b: Seq<u8>)
    ensures
        steps(a) == steps(b) || path_before(a, b) || path_before(b, a),
{
    lemma_step_order();
    lemma_before_total(steps(a), steps(b), step_order(), 0);
}

/// Whether one byte string comes before another.
fn bytes_before(a: &[u8], b: &[u8]) -> (r: bool)
    ensures
        r == before(a@, b@, byte_order()),
{
    let n = if a.len() < b.len() {
        a.len()
    } else {
        b.len()
    };
    let mut k: usize = 0;
    while k < n && a[k] == b[k]
        invariant
            k <= n,
            n <= a@.len(),
            n <= b@.len(),
            forall|j: int| 0 <= j < k ==> a@[j] == b@[j],
        decreases n - k,
    {
        k = k + 1;
    }
    let r = k < b.len() && (k == a.len() || a[k] < b[k]);
    proof {
        if r {
            assert(before_at(a@, b@, byte_order(), k as int));
        } else if before(a@, b@, byte_order()) {
            let w = choose|w: int| before_at(a@, b@, byte_order(), w);
            assert(w <= k);
            assert(byte_order()(a@[w], b@[w]) ==> a@[w] < b@[w]);
        }
    }
    r
}

fn rank_of(c: &Component) -> (r: u8)
    ensures
        r == rank(c@),
{
    match c {
        Component::RootDir => 0,
        Component::CurDir => 1,
        Component::ParentDir => 2,
        Component::Normal(_) => 3,
    }
}

fn component_before(a: &Component, b: &Component) -> (r: bool)
    ensures
        r == step_before(a@, b@),
{
    match (a, b) {
        (Component::Normal(x), Component::Normal(y)) => bytes_before(x, y),
        _ => rank_of(a) < rank_of(b),
    }
}

/// Whether one path comes before another.
pub fn comes_before(p: &[u8], q: &[u8]) -> (r: bool)
    ensures
        r == path_before(p@, q@),
{
    let a = components(p);
    let b = components(q);
    let ghost sa = steps(p@);
    let ghost sb = steps(q@);
    let ghost lt = step_order();
    proof {
        lemma_step_order();
    }
    let mut k: usize = 0;
    while k < a.len() && k < b.len()
        invariant
            sa == steps(p@),
            sb == steps(q@),
            lt == step_order(),
            strict_total(lt),
            steps_of(a@) == sa,
            steps_of(b@) == sb,
            k <= a.len(),
            k <= b.len(),
            forall|j: int| 0 <= j < k ==> sa[j] == sb[j],
        decreases a.len() - k,
    {
        assert(sa[k as int] == a@[k as int]@);
        assert(sb[k as int] == b@[k as int]@);
        if component_before(&a[k], &b[k]) {
            assert(before_at(sa, sb, lt, k as int));
            return true;
        }
        if component_before(&b[k], &a[k]) {
            assert(lt(sb[k as int], sa[k as int]));
            assert(before_at(sb, sa, lt, k as int));
            proof {
                if path_before(p@, q@) {
                    lemma_before_transitive(sa, sb, sa, lt);
                    lemma_before_irreflexive(sa, lt);
                }
            }
            return false;
        }
        assert(!lt(sa[k as int], sb[k as int]) && !lt(sb[k as int], sa[k as int]));
        k = k + 1;
    }
    let r = k < b.len();
    proof {
        if r {
            assert(before_at(sa, sb, lt, k as int));
        } else if path_before(p@, q@) {
            let w = choose|w: int| before_at(sa, sb, lt, w);
            assert(lt(sa[w], sb[w]));
        }
    }
    r
}

/// `places` says where each element of `sorted` stood in `given`: every position occurs once,
/// no element comes before an earlier one, and elements of which neither comes first keep their
/// order.
pub open spec fn stable_sort(given: Seq<Seq<u8>>, sorted: Seq<Seq<u8>>, places: Seq<int>) -> bool {
    &&& sorted.len() == given.len()
    &&& places.len() == given.len()
    &&& forall|i: int| 0 <= i < places.len() ==> 0 <= #[trigger] places[i] < given.len()
    &&& forall|i: int, j: int|
        0 <= i < j < places.len() ==> #[trigger] places[i] != #[trigger] places[j]
    &&& forall|i: int| 0 <= i < places.len() ==> #[trigger] sorted[i] == given[places[i]]
    &&& forall|i: int, j: int|
        0 <= i < j < sorted.len() ==> !path_before(#[trigger] sorted[j], #[trigger] sorted[i]) && (
        path_before(sorted[i], sorted[j]) || places[i] < places[j])
}

/// `sorted` is `given` in the order of paths.
pub open spec fn sorted_from(given: Seq<Seq<u8>>, sorted: Seq<Seq<u8>>) -> bool {
    exists|places: Seq<int>| #[trigger] stable_sort(given, sorted, places)
}

/// Sorts paths by their steps; paths with the same steps keep their order.
pub fn sort_paths(given: Vec<Vec<u8>>) -> (r: Vec<Vec<u8>>)
    ensures
        sorted_from(byte_views(given@), byte_views(r@)),
{
    let ghost all = byte_views(given@);
    let mut r: Vec<Vec<u8>> = Vec::new();
    let ghost mut places = Seq::<int>::empty();
    for i in 0..given.len()
        invariant
            all == byte_views(given@),
            stable_sort(all.take(i as int), byte_views(r@), places),
    {
        let x = vstd::slice::slice_to_vec(given[i].as_slice());
        let ghost sorted = byte_views(r@);
        assert(x@ == all[i as int]);
        let mut j: usize = r.len();
        while j > 0 && comes_before(&x, &r[j - 1])
            invariant
                j <= r.len(),
                sorted == byte_views(r@),
                forall|k: int| j <= k < r.len() ==> path_before(x@, #[trigger] sorted[k]),
            decreases j,
        {
            assert(sorted[j - 1] == r@[j - 1]@);
            j = j - 1;
        }
        proof {
            if j > 0 {
                assert(sorted[j - 1] == r@[j - 1]@);
                assert(!path_before(x@, sorted[j - 1]));
            }
            lemma_insert(all, i as int, sorted, places, x@, j as int);
            places = places.insert(j as int, i as int);
        }
        r.insert(j, x);
        assert(byte_views(r@) =~= sorted.insert(j as int, x@));
    }
    assert(all.take(all.len() as int) =~= all);
    r
}

proof fn lemma_insert(
    all: Seq<Seq<u8>>,
    i: int,
    sorted: Seq<Seq<u8>>,
    places: Seq<int>,
    x: Seq<u8>,
    j: int,
)
    requires
        0 <= i < all.len(),
        x == all[i],
        stable_sort(all.take(i), sorted, places),
        0 <= j <= sorted.len(),
        j > 0 ==> !path_before(x, sorted[j - 1]),
        forall|k: int| j <= k < sorted.len() ==> path_before(x, #[trigger] sorted[k]),
    ensures
        stable_sort(all.take(i + 1), sorted.insert(j, x), places.insert(j, i)),
{
    let given = all.take(i + 1);
    let next = sorted.insert(j, x);
    let moved = places.insert(j, i);
    assert forall|k: int| 0 <= k < j implies !path_before(x, #[trigger] sorted[k]) by {
        if path_before(x, sorted[k]) && k < j - 1 {
            law_path_order_strict(x, sorted[k], sorted[j - 1]);
            law_path_order_total(sorted[k], sorted[j - 1]);
        }
    }
    assert forall|k: int| j <= k < sorted.len() implies !path_before(#[trigger] sorted[k], x) by {
        if path_before(sorted[k], x) {
            law_path_order_strict(x, sorted[k], x);
        }
    }
    assert forall|a: int| 0 <= a < moved.len() implies 0 <= #[trigger] moved[a] < given.len()
        && next[a] == given[moved[a]] by {
        if a < j {
            assert(moved[a] == places[a] && next[a] == sorted[a]);
        } else if a > j {
            assert(moved[a] == places[a - 1] && next[a] == sorted[a - 1]);
        }
    }
    assert forall|a: int, b: int| 0 <= a < b < moved.len() implies #[trigger] moved[a]
        != #[trigger] moved[b] by {
        let pa = if a < j {
            a
        } else {
            a - 1
        };
        let pb = if b < j {
            b
        } else {
            b - 1
        };
        if a != j {
            assert(moved[a] == places[pa]);
        }
        if b != j {
            assert(moved[b] == places[pb]);
        }
    }
    assert forall|a: int, b: int| 0 <= a < b < next.len() implies !path_before(
        #[trigger] next[b],
        #[trigger] next[a],
    ) && (path_before(next[a], next[b]) || moved[a] < moved[b]) by {
        if b < j {
            assert(next[a] == sorted[a] && next[b] == sorted[b]);
            assert(moved[a] == places[a] && moved[b] == places[b]);
        } else if b == j {
            assert(next[a] == sorted[a] && moved[a] == places[a]);
        } else if a < j {
            assert(next[a] == sorted[a] && next[b] == sorted[b - 1]);
            assert(moved[a] == places[a] && moved[b] == places[b - 1]);
        } else if a == j {
            assert(next[b] == sorted[b - 1]);
        } else {
            assert(next[a] == sorted[a - 1] && next[b] == sorted[b - 1]);
            assert(moved[a] == places[a - 1] && moved[b] == places[b - 1]);
        }
    }
}

proof fn lemma_places_cover(given: Seq<Seq<u8>>, sorted: Seq<Seq<u8>>, places: Seq<int>, p: int)
    requires
        stable_sort(given, sorted, places),
        0 <= p < given.len(),
    ensures
        places.contains(p),
{
    lemma_rearranged_covers(given, sorted, places, p);
}

/// Where a stable order puts one position before another, it comes before it there.
proof fn lemma_later_place(given: Seq<Seq<u8>>, sorted: Seq<Seq<u8>>, places: Seq<int>, i: int, x: int)
    requires
        stable_sort(given, sorted, places),
        0 <= i < places.len(),
        places.contains(x),
        x != places[i],
        forall|k: int| 0 <= k < i ==> #[trigger] places[k] != x,
    ensures
        !path_before(given[x], given[places[i]]),
        path_before(given[places[i]], given[x]) || places[i] < x,
{
    let j = choose|j: int| 0 <= j < places.len() && places[j] == x;
    assert(i < j);
    assert(sorted[i] == given[places[i]] && sorted[j] == given[places[j]]);
}

proof fn lemma_same_places(
    given: Seq<Seq<u8>>,
    one: Seq<Seq<u8>>,
    p: Seq<int>,
    other: Seq<Seq<u8>>,
    q: Seq<int>,
    n: int,
)
    requires
        stable_sort(given, one, p),
        stable_sort(given, other, q),
        0 <= n <= given.len(),
    ensures
        forall|k: int| 0 <= k < n ==> #[trigger] p[k] == q[k],
    decreases n,
{
    if n > 0 {
        let i = n - 1;
        lemma_same_places(given, one, p, other, q, i);
        assert(0 <= p[i] < given.len() && 0 <= q[i] < given.len());
        lemma_places_cover(given, one, p, q[i]);
        lemma_places_cover(given, other, q, p[i]);
        if p[i] != q[i] {
            assert forall|k: int| 0 <= k < i implies #[trigger] p[k] != q[i] by {
                assert(p[k] == q[k] && q[k] != q[i]);
            }
            assert forall|k: int| 0 <= k < i implies #[trigger] q[k] != p[i] by {
                assert(p[k] == q[k] && p[k] != p[i]);
            }
            lemma_later_place(given, one, p, i, q[i]);
            lemma_later_place(given, other, q, i, p[i]);
        }
    }
}

/// There is one way only to put paths in order.
pub proof fn law_sorted_unique(given: Seq<Seq<u8>>, one: Seq<Seq<u8>>, other: Seq<Seq<u8>>)
    requires
        sorted_from(given, one),
        sorted_from(given, other),
    ensures
        one == other,
{
    let p = choose|p: Seq<int>| #[trigger] stable_sort(given, one, p);
    let q = choose|q: Seq<int>| #[trigger] stable_sort(given, other, q);
    lemma_same_places(given, one, p, other, q, given.len() as int);
    assert forall|k: int| 0 <= k < one.len() implies one[k] == other[k] by {
        assert(p[k] == q[k]);
    }
    assert(one =~= other);
}

/// Paths are ordered at the first step in which they differ. Of two names there, the one comes
/// first that ends where the other goes on, or has the smaller byte where they first differ.
pub proof fn law_first_difference_decides(
    a: Seq<u8>,
    b: Seq<u8>,
    k: int,
    x: Seq<u8>,
    y: Seq<u8>,
    j: int,
)
    requires
        0 <= k < steps(a).len(),
        k < steps(b).len(),
        forall|i: int| 0 <= i < k ==> steps(a)[i] == steps(b)[i],
        steps(a)[k] == Step::Normal(x),
        steps(b)[k] == Step::Normal(y),
        0 <= j <= x.len(),
        j < y.len(),
        forall|i: int| 0 <= i < j ==> x[i] == y[i],
        j < x.len() ==> x[j] < y[j],
    ensures
        path_before(a, b),
        !path_before(b, a),
{
    assert(before_at(x, y, byte_order(), j));
    assert(before_at(steps(a), steps(b), step_order(), k));
    law_path_order_strict(a, b, a);
}

/// A path comes before what lies below it.
pub proof fn law_path_before_its_contents(a: Seq<u8>, b: Seq<u8>)
    requires
        steps(a).len() < steps(b).len(),
        forall|i: int| 0 <= i < steps(a).len() ==> steps(a)[i] == steps(b)[i],
    ensures
        path_before(a, b),
        !path_before(b, a),
{
    assert(before_at(steps(a), steps(b), step_order(), steps(a).len() as int));
    law_path_order_strict(a, b, a);
}

/// Where two paths first differ in the kind of step, the root comes first, then the current
/// directory, then the parent directory, then names.
pub proof fn law_kinds_of_steps(a: Seq<u8>, b: Seq<u8>, k: int)
    requires
        0 <= k < steps(a).len(),
        k < steps(b).len(),
        forall|i: int| 0 <= i < k ==> steps(a)[i] == steps(b)[i],
        match steps(a)[k] {
            Step::RootDir => !(steps(b)[k] is RootDir),
            Step::CurDir => steps(b)[k] is ParentDir || steps(b)[k] is Normal,
            Step::ParentDir => steps(b)[k] is Normal,
            Step::Normal(_) => false,
        },
    ensures
        path_before(a, b),
        !path_before(b, a),
{
    assert(before_at(steps(a), steps(b), step_order(), k));
    law_path_order_strict(a, b, a);
}

/// Paths with the same steps come neither before nor after each other.
pub proof fn law_same_steps(a: Seq<u8>, b: Seq<u8>)
    requires
        steps(a) == steps(b),
    ensures
        !path_before(a, b),
{
    law_path_order_strict(a, a, a);
}

/// `places` takes each position of `given` once, and `moved` holds what stands there.
spec fn rearranged<T>(given: Seq<T>, moved: Seq<T>, places: Seq<int>) -> bool {
    &&& moved.len() == given.len()
    &&& places.len() == given.len()
    &&& forall|i: int| 0 <= i < places.len() ==> 0 <= #[trigger] places[i] < given.len()
    &&& forall|i: int, j: int|
        0 <= i < j < places.len() ==> #[trigger] places[i] != #[trigger] places[j]
    &&& forall|i: int| 0 <= i < places.len() ==> #[trigger] moved[i] == given[places[i]]
}

proof fn lemma_rearranged_covers<T>(given: Seq<T>, moved: Seq<T>, places: Seq<int>, p: int)
    requires
        rearranged(given, moved, places),
        0 <= p < given.len(),
    ensures
        places.contains(p),
{
    let all = vstd::set_lib::set_int_range(0, given.len() as int);
    vstd::set_lib::lemma_int_range(0, given.len() as int);
    vstd::seq_lib::seq_to_set_is_finite(places);
    assert(places.no_duplicates());
    places.unique_seq_to_set();
    assert forall|x: int| places.to_set().contains(x) implies all.contains(x) by {
        let k = choose|k: int| 0 <= k < places.len() && places[k] == x;
        assert(0 <= places[k] < given.len());
    }
    vstd::set_lib::lemma_subset_equality(places.to_set(), all);
    assert(places.to_set().contains(p));
}

proof fn lemma_rearranged_multiset<T>(given: Seq<T>, moved: Seq<T>, places: Seq<int>)
    requires
        rearranged(given, moved, places),
    ensures
        moved.to_multiset() == given.to_multiset(),
    decreases given.len(),
{
    if given.len() == 0 {
        assert(given =~= moved);
    } else {
        let last = given.len() - 1;
        lemma_rearranged_covers(given, moved, places, last);
        let m = choose|m: int| 0 <= m < places.len() && places[m] == last;
        let init = given.drop_last();
        let fewer = moved.remove(m);
        let rest = places.remove(m);
        assert(moved[m] == given[places[m]]);
        assert forall|i: int| 0 <= i < rest.len() implies 0 <= #[trigger] rest[i] < init.len() by {
            let o = if i < m {
                i
            } else {
                i + 1
            };
            assert(rest[i] == places[o]);
            assert(0 <= places[o] < given.len());
            if o < m {
                assert(places[o] != places[m]);
            } else {
                assert(places[m] != places[o]);
            }
        }
        assert forall|i: int| 0 <= i < rest.len() implies #[trigger] fewer[i] == init[rest[i]] by {
            let o = if i < m {
                i
            } else {
                i + 1
            };
            assert(fewer[i] == moved[o]);
            assert(moved[o] == given[places[o]]);
            assert(0 <= rest[i] < init.len());
        }
        assert(rearranged(init, fewer, rest));
        lemma_rearranged_multiset(init, fewer, rest);
        moved.to_multiset_ensures();
        init.to_multiset_ensures();
        assert(init.push(given.last()) =~= given);
        assert(fewer.to_multiset() == moved.to_multiset().remove(moved[m]));
        assert(moved.contains(moved[m]));
        assert(moved.to_multiset().count(moved[m]) > 0);
        assert(moved.to_multiset() =~= fewer.to_multiset().insert(moved[m]));
    }
}

/// Sorting neither loses nor adds a path, and puts no path after one that it comes before.
pub proof fn law_sorted(given: Seq<Seq<u8>>, sorted: Seq<Seq<u8>>)
    requires
        sorted_from(given, sorted),
    ensures
        sorted.to_multiset() == given.to_multiset(),
        forall|i: int, j: int|
            0 <= i < j < sorted.len() ==> !path_before(#[trigger] sorted[j], #[trigger] sorted[i]),
{
    let places = choose|places: Seq<int>| #[trigger] stable_sort(given, sorted, places);
    assert(rearranged(given, sorted, places));
    lemma_rearranged_multiset(given, sorted, places);
}

/// Sorting keeps paths with the same steps in the order in which they came.
pub proof fn law_sorting_is_stable(given: Seq<Seq<u8>>, sorted: Seq<Seq<u8>>, i: int, j: int)
    requires
        sorted_from(given, sorted),
        0 <= i < j < sorted.len(),
        steps(sorted[i]) == steps(sorted[j]),
    ensures
        exists|p: int, q: int|
            0 <= p < q < given.len() && #[trigger] given[p] == sorted[i] && #[trigger] given[q]
                == sorted[j],
{
    let places = choose|places: Seq<int>| #[trigger] stable_sort(given, sorted, places);
    assert(sorted[i] == given[places[i]] && sorted[j] == given[places[j]]);
    law_same_steps(sorted[i], sorted[j]);
    assert(places[i] < places[j]);
}

} // verus!
