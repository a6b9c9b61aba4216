//! Splitting sequences at a separator, and joining them again.
use vstd::prelude::*;

use crate::text::text_views;

verus! {

/// The pieces of `s` between the occurrences of `sep`: one more piece than there are separators,
/// empty where two separators meet or where one stands at an end.
pub open spec fn split<T>(s: Seq<T>, sep: T) -> Seq<Seq<T>>
    decreases s.len(),
{
    if s.len() == 0 {
        seq![Seq::<T>::empty()]
    } else {
        let before = split(s.drop_last(), sep);
        if s.last() == sep {
            before.push(Seq::empty())
        } else {
            before.drop_last().push(before.last().push(s.last()))
        }
    }
}

/// The pieces one after another with one `sep` between neighbours.
pub open spec fn join<T>(pieces: Seq<Seq<T>>, sep: T) -> Seq<T>
    decreases pieces.len(),
{
    if pieces.len() == 0 {
        Seq::empty()
    } else if pieces.len() == 1 {
        pieces[0]
    } else {
        join(pieces.drop_last(), sep).push(sep) + pieces.last()
    }
}

/// The pieces that hold at least one element.
pub open spec fn nonempty<T>(pieces: Seq<Seq<T>>) -> Seq<Seq<T>> {
    pieces.filter(has_elements())
}

pub open spec fn has_elements<T>() -> spec_fn(Seq<T>) -> bool {
    |p: Seq<T>| p.len() > 0
}

/// Where `x` occurs first in `s`; the length of `s` where it does not occur.
pub open spec fn first_index<T>(s: Seq<T>, x: T) -> int
    decreases s.len(),
{
    if s.len() == 0 || s[0] == x {
        0
    } else {
        1 + first_index(s.skip(1), x)
    }
}

/// The first occurrence is one, and none stands before it.
pub proof fn law_first_index<T>(s: Seq<T>, x: T)
    ensures
        0 <= first_index(s, x) <= s.len(),
        first_index(s, x) < s.len() ==> s[first_index(s, x)] == x,
        forall|i: int| 0 <= i < first_index(s, x) ==> s[i] != x,
    decreases s.len(),
{
    if s.len() > 0 && s[0] != x {
        law_first_index(s.skip(1), x);
        assert forall|i: int| 0 <= i < first_index(s, x) implies s[i] != x by {
            if i > 0 {
                assert(s.skip(1)[i - 1] == s[i]);
            }
        }
    }
}

/// The position of an occurrence before which there is none.
pub proof fn lemma_first_index_at<T>(s: Seq<T>, x: T, i: int)
    requires
        0 <= i <= s.len(),
        i < s.len() ==> s[i] == x,
        forall|k: int| 0 <= k < i ==> s[k] != x,
    ensures
        first_index(s, x) == i,
{
    law_first_index(s, x);
    let f = first_index(s, x);
    if f < i {
        assert(s[f] != x);
    } else if i < f {
        assert(s[i] != x);
    }
}

/// The views of a sequence of byte strings.
pub open spec fn byte_views(v: Seq<Vec<u8>>) -> Seq<Seq<u8>> {
    v.map_values(|b: Vec<u8>| b@)
}

/// Splitting always gives a piece, and no piece holds the separator.
pub proof fn law_split_pieces<T>(s: Seq<T>, sep: T)
    ensures
        split(s, sep).len() > 0,
        forall|i: int| 0 <= i < split(s, sep).len() ==> !(#[trigger] split(s, sep)[i]).contains(sep),
    decreases s.len(),
{
    if s.len() > 0 {
        let before = split(s.drop_last(), sep);
        law_split_pieces(s.drop_last(), sep);
        assert forall|i: int| 0 <= i < split(s, sep).len() implies !(#[trigger] split(
            s,
            sep,
        )[i]).contains(sep) by {
            if s.last() != sep && i == before.len() - 1 {
                let piece = before.last().push(s.last());
                assert(!before.last().contains(sep));
                if piece.contains(sep) {
                    let k = choose|k: int| 0 <= k < piece.len() && piece[k] == sep;
                    assert(before.last()[k] == sep);
                }
            } else if i < before.len() {
                assert(split(s, sep)[i] == before[i]);
            }
        }
    }
}

/// Splitting loses nothing: the pieces joined by the separator are what was split.
pub proof fn law_join_split<T>(s: Seq<T>, sep: T)
    ensures
        join(split(s, sep), sep) == s,
    decreases s.len(),
{
    if s.len() > 0 {
        let before = split(s.drop_last(), sep);
        let all = split(s, sep);
        law_join_split(s.drop_last(), sep);
        law_split_pieces(s.drop_last(), sep);
        if s.last() == sep {
            assert(all.drop_last() =~= before);
            assert(join(all, sep) =~= s);
        } else if before.len() > 1 {
            assert(all.drop_last() =~= before.drop_last());
            assert(all.last() == before.last().push(s.last()));
            assert(s.drop_last() == join(before.drop_last(), sep).push(sep) + before.last());
            assert(s =~= s.drop_last().push(s.last()));
            assert(join(all, sep) =~= s);
        } else {
            assert(join(all, sep) =~= s);
        }
    }
}

/// A separator and a plain piece after it add that piece.
pub proof fn lemma_split_append<T>(a: Seq<T>, b: Seq<T>, sep: T)
    requires
        !b.contains(sep),
    ensures
        split(a.push(sep) + b, sep) == split(a, sep).push(b),
    decreases b.len(),
{
    let whole = a.push(sep) + b;
    if b.len() == 0 {
        assert(whole =~= a.push(sep));
        assert(whole.drop_last() =~= a);
        assert(b =~= Seq::empty());
    } else {
        let shorter = b.drop_last();
        assert(forall|k: int| 0 <= k < b.len() ==> b[k] != sep);
        lemma_split_append(a, shorter, sep);
        assert(whole.drop_last() =~= a.push(sep) + shorter);
        assert(shorter.push(b.last()) =~= b);
        assert(split(a, sep).push(shorter).drop_last() =~= split(a, sep));
    }
}

/// A sequence without the separator is one piece.
pub proof fn lemma_split_plain<T>(s: Seq<T>, sep: T)
    requires
        !s.contains(sep),
    ensures
        split(s, sep) == seq![s],
    decreases s.len(),
{
    if s.len() == 0 {
        assert(s =~= Seq::empty());
    } else {
        assert(forall|k: int| 0 <= k < s.len() ==> s[k] != sep);
        lemma_split_plain(s.drop_last(), sep);
        assert(s.drop_last().push(s.last()) =~= s);
        assert(split(s, sep) =~= seq![s]);
    }
}

/// Joining loses nothing: pieces free of the separator come back from the joined sequence.
pub proof fn law_split_join<T>(pieces: Seq<Seq<T>>, sep: T)
    requires
        pieces.len() > 0,
        forall|i: int| 0 <= i < pieces.len() ==> !(#[trigger] pieces[i]).contains(sep),
    ensures
        split(join(pieces, sep), sep) == pieces,
    decreases pieces.len(),
{
    if pieces.len() == 1 {
        lemma_split_plain(pieces[0], sep);
        assert(pieces =~= seq![pieces[0]]);
    } else {
        law_split_join(pieces.drop_last(), sep);
        lemma_split_append(join(pieces.drop_last(), sep), pieces.last(), sep);
        assert(pieces.drop_last().push(pieces.last()) =~= pieces);
    }
}

/// Whether two byte strings are equal.
pub fn bytes_eq(a: &[u8], b: &[u8]) -> (r: bool)
    ensures
        r == (a@ == b@),
{
    if a.len() != b.len() {
        return false;
    }
    for i in 0..a.len()
        invariant
            a@.len() == b@.len(),
            forall|k: int| 0 <= k < i ==> a@[k] == b@[k],
    {
        if a[i] != b[i] {
            return false;
        }
    }
    assert(a@ =~= b@);
    true
}

/// Whether `byte` occurs in `s`.
pub fn contains_byte(s: &[u8], byte: u8) -> (r: bool)
    ensures
        r == s@.contains(byte),
{
    for i in 0..s.len()
        invariant
            forall|k: int| 0 <= k < i ==> s@[k] != byte,
    {
        if s[i] == byte {
            assert(s@[i as int] == byte);
            return true;
        }
    }
    false
}

/// Where `byte` occurs first in `s`; the length of `s` where it does not occur.
pub fn find_byte(s: &[u8], byte: u8) -> (r: usize)
    ensures
        r == first_index(s@, byte),
{
    let mut i: usize = 0;
    while i < s.len() && s[i] != byte
        invariant
            i <= s@.len(),
            forall|k: int| 0 <= k < i ==> s@[k] != byte,
        decreases s@.len() - i,
    {
        i = i + 1;
    }
    proof {
        lemma_first_index_at(s@, byte, i as int);
    }
    i
}

/// The pieces of a byte string between the occurrences of `sep`.
pub fn split_bytes(s: &[u8], sep: u8) -> (r: Vec<Vec<u8>>)
    ensures
        byte_views(r@) == split(s@, sep),
{
    let mut r: Vec<Vec<u8>> = Vec::new();
    let mut piece: Vec<u8> = Vec::new();
    for i in 0..s.len()
        invariant
            byte_views(r@).push(piece@) == split(s@.take(i as int), sep),
    {
        let ghost done = byte_views(r@);
        assert(s@.take(i + 1).drop_last() =~= s@.take(i as int));
        assert(done.push(piece@).drop_last() =~= done);
        if s[i] == sep {
            let ghost whole = piece@;
            r.push(piece);
            piece = Vec::new();
            assert(byte_views(r@) =~= done.push(whole));
        } else {
            piece.push(s[i]);
        }
    }
    let ghost done = byte_views(r@);
    let ghost whole = piece@;
    r.push(piece);
    assert(byte_views(r@) =~= done.push(whole));
    assert(s@.take(s@.len() as int) =~= s@);
    r
}

/// The pieces of a text between the occurrences of `sep`.
pub fn split_text(s: &str, sep: char) -> (r: Vec<String>)
    ensures
        text_views(r@) == split(s@, sep),
{
    let mut r: Vec<String> = Vec::new();
    let mut piece = String::new();
    for c in it: s.chars()
        invariant
            it.seq() == s@,
            text_views(r@).push(piece@) == split(s@.take(it.index()), sep),
    {
        let ghost done = text_views(r@);
        assert(s@.take(it.index() + 1).drop_last() =~= s@.take(it.index()));
        assert(done.push(piece@).drop_last() =~= done);
        if c == sep {
            let ghost whole = piece@;
            r.push(piece);
            piece = String::new();
            assert(text_views(r@) =~= done.push(whole));
        } else {
            piece.push(c);
        }
    }
    let ghost done = text_views(r@);
    let ghost whole = piece@;
    r.push(piece);
    assert(text_views(r@) =~= done.push(whole));
    assert(s@.take(s@.len() as int) =~= s@);
    r
}

/// After a separator, splitting starts anew.
pub proof fn law_split_at_separator<T>(a: Seq<T>, b: Seq<T>, sep: T)
    ensures
        split(a.push(sep) + b, sep) == split(a, sep) + split(b, sep),
    decreases b.len(),
{
    let whole = a.push(sep) + b;
    let first = split(a, sep);
    if b.len() == 0 {
        assert(whole =~= a.push(sep));
        assert(whole.drop_last() =~= a);
        assert(split(whole, sep) =~= first + split(b, sep));
    } else {
        let shorter = b.drop_last();
        let rest = split(shorter, sep);
        law_split_at_separator(a, shorter, sep);
        law_split_pieces(shorter, sep);
        assert(whole.drop_last() =~= a.push(sep) + shorter);
        assert((first + rest).drop_last() =~= first + rest.drop_last());
        assert(split(whole, sep) =~= first + split(b, sep));
    }
}

/// Joining puts one separator between neighbours, and nothing else.
pub proof fn law_join_grows<T>(pieces: Seq<Seq<T>>, piece: Seq<T>, sep: T)
    ensures
        join(Seq::<Seq<T>>::empty(), sep) == Seq::<T>::empty(),
        join(seq![piece], sep) == piece,
        pieces.len() > 0 ==> join(pieces.push(piece), sep) == join(pieces, sep) + seq![sep] + piece,
{
    assert(pieces.push(piece).drop_last() =~= pieces);
    assert(join(pieces, sep).push(sep) + piece =~= join(pieces, sep) + seq![sep] + piece);
}

/// Leaving out empty pieces goes piece by piece.
pub proof fn law_nonempty_parts<T>(a: Seq<Seq<T>>, b: Seq<Seq<T>>, piece: Seq<T>)
    ensures
        nonempty(a + b) == nonempty(a) + nonempty(b),
        nonempty(seq![piece]) == if piece.len() > 0 {
            seq![piece]
        } else {
            Seq::empty()
        },
{
    Seq::filter_distributes_over_add(a, b, has_elements());
    reveal(Seq::filter);
    assert(seq![piece].drop_last() =~= Seq::empty());
    assert(nonempty(seq![piece].drop_last()) =~= Seq::empty());
    assert(nonempty(seq![piece]) =~= if piece.len() > 0 {
        seq![piece]
    } else {
        Seq::empty()
    });
}

/// The views of byte strings are those of the single ones.
pub proof fn law_byte_views(v: Seq<Vec<u8>>)
    ensures
        byte_views(v).len() == v.len(),
        forall|i: int| 0 <= i < v.len() ==> #[trigger] byte_views(v)[i] == v[i]@,
{
}

} // verus!
