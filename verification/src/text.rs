//! Text: building strings, decoding bytes, classes of characters, prefixes and lines.
use vstd::prelude::*;
use vstd::string::*;
use vstd::utf8::*;

use crate::pieces::{split, split_text};

verus! {

/// `String::push` appends one character at the end.
pub assume_specification[ String::push ](s: &mut String, c: char)
    ensures
        final(s)@ == old(s)@.push(c),
;

/// The views of a sequence of strings.
pub open spec fn text_views(v: Seq<String>) -> Seq<Seq<char>> {
    v.map_values(|t: String| t@)
}

/// The characters of `s`, in order.
pub fn chars_of(s: &str) -> (r: Vec<char>)
    ensures
        r@ == s@,
{
    let mut r: Vec<char> = Vec::new();
    for c in it: s.chars()
        invariant
            it.seq() == s@,
            r@ == s@.take(it.index()),
    {
        proof {
            s@.lemma_take_succ_push(it.index());
        }
        r.push(c);
    }
    assert(s@.take(s@.len() as int) =~= s@);
    r
}

/// The string made of the given characters.
pub fn text_of(chars: &[char]) -> (r: String)
    ensures
        r@ == chars@,
{
    let mut r = String::new();
    for i in 0..chars.len()
        invariant
            r@ == chars@.take(i as int),
    {
        proof {
            chars@.lemma_take_succ_push(i as int);
        }
        r.push(chars[i]);
    }
    assert(chars@.take(chars@.len() as int) =~= chars@);
    r
}

/// What `String::from_utf8_lossy` makes of a byte string that is not valid UTF-8.
pub uninterp spec fn repaired(bytes: Seq<u8>) -> Seq<char>;

/// The text shown for a byte string: its UTF-8 decoding where it has one, and otherwise what
/// `String::from_utf8_lossy` puts in its place.
pub open spec fn lossy(bytes: Seq<u8>) -> Seq<char> {
    if valid_utf8(bytes) {
        decode_utf8(bytes)
    } else {
        repaired(bytes)
    }
}

/// Calls `String::from_utf8_lossy`: valid UTF-8 is decoded as it stands, and the text given for
/// any other byte string depends on that byte string alone. How invalid sequences are replaced
/// is not described.
#[verifier::external_body]
pub(crate) fn decode_lossy(bytes: &[u8]) -> (r: String)
    ensures
        r@ == lossy(bytes@),
        !valid_utf8(bytes@) ==> r@ == repaired(bytes@),
{
    String::from_utf8_lossy(bytes).into_owned()
}

/// The characters with the Unicode property `White_Space`.
pub open spec fn is_space(c: char) -> bool {
    ||| '\t' <= c <= '\r'
    ||| c == ' '
    ||| c == '\u{85}'
    ||| c == '\u{a0}'
    ||| c == '\u{1680}'
    ||| '\u{2000}' <= c <= '\u{200a}'
    ||| c == '\u{2028}'
    ||| c == '\u{2029}'
    ||| c == '\u{202f}'
    ||| c == '\u{205f}'
    ||| c == '\u{3000}'
}

/// Whether a character is white space.
pub fn is_white_space(c: char) -> (r: bool)
    ensures
        r == is_space(c),
{
    ('\t' <= c && c <= '\r') || c == ' ' || c == '\u{85}' || c == '\u{a0}' || c == '\u{1680}' || (
    '\u{2000}' <= c && c <= '\u{200a}') || c == '\u{2028}' || c == '\u{2029}' || c == '\u{202f}'
        || c == '\u{205f}' || c == '\u{3000}'
}

/// What `char::is_alphanumeric` says of a character beyond ASCII.
pub uninterp spec fn wide_alphanumeric(c: char) -> bool;

/// Unicode letters and numbers. Among the ASCII characters these are the letters and digits.
pub open spec fn is_alphanumeric(c: char) -> bool {
    if (c as u32) < 128 {
        'a' <= c <= 'z' || 'A' <= c <= 'Z' || '0' <= c <= '9'
    } else {
        wide_alphanumeric(c)
    }
}

/// Calls `char::is_alphanumeric`: the Unicode properties `Alphabetic` and `Numeric`, spelled out
/// for ASCII and named beyond it.
#[verifier::external_body]
pub(crate) fn is_letter_or_number(c: char) -> (r: bool)
    ensures
        r == is_alphanumeric(c),
        c as u32 >= 128 ==> r == wide_alphanumeric(c),
{
    c.is_alphanumeric()
}

/// Whether two texts are equal.
pub fn text_eq(a: &str, b: &str) -> (r: bool)
    ensures
        r == (a@ == b@),
{
    proof {
        encode_utf8_decode_utf8(a@);
        encode_utf8_decode_utf8(b@);
    }
    crate::pieces::bytes_eq(a.as_bytes(), b.as_bytes())
}

/// Whether `c` occurs in `s`.
pub fn contains_char(s: &str, c: char) -> (r: bool)
    ensures
        r == s@.contains(c),
{
    let chars = chars_of(s);
    for i in 0..chars.len()
        invariant
            chars@ == s@,
            forall|k: int| 0 <= k < i ==> s@[k] != c,
    {
        if chars[i] == c {
            assert(s@[i as int] == c);
            return true;
        }
    }
    false
}

/// Whether `s` starts with `prefix`.
pub fn starts_with(s: &[char], prefix: &[char]) -> (r: bool)
    ensures
        r == prefix@.is_prefix_of(s@),
{
    if s.len() < prefix.len() {
        return false;
    }
    for i in 0..prefix.len()
        invariant
            prefix@.len() <= s@.len(),
            forall|k: int| 0 <= k < i ==> s@[k] == prefix@[k],
    {
        if s[i] != prefix[i] {
            assert(s@.take(prefix@.len() as int)[i as int] != prefix@[i as int]);
            return false;
        }
    }
    assert(s@.take(prefix@.len() as int) =~= prefix@);
    true
}

/// Whether `s` starts with `prefix`.
pub fn has_prefix(s: &str, prefix: &str) -> (r: bool)
    ensures
        r == prefix@.is_prefix_of(s@),
{
    let chars = chars_of(s);
    let wanted = chars_of(prefix);
    starts_with(&chars, &wanted)
}

/// A line without the carriage return before its line feed.
pub open spec fn strip_return(line: Seq<char>) -> Seq<char> {
    if line.len() > 0 && line.last() == '\r' {
        line.drop_last()
    } else {
        line
    }
}

/// The lines of a text. A line ends with a line feed or with a carriage return and a line feed;
/// the last one may stand without an ending, and then keeps its carriage return.
pub open spec fn lines(s: Seq<char>) -> Seq<Seq<char>> {
    let pieces = split(s, '\n');
    let ended = pieces.drop_last().map_values(|line: Seq<char>| strip_return(line));
    if pieces.last().len() == 0 {
        ended
    } else {
        ended.push(pieces.last())
    }
}

/// The lines of a text.
pub fn lines_of(s: &str) -> (r: Vec<String>)
    ensures
        text_views(r@) == lines(s@),
{
    let pieces = split_text(s, '\n');
    proof {
        crate::pieces::law_split_pieces(s@, '\n');
    }
    let last: usize = pieces.len() - 1;
    let ghost ended = split(s@, '\n').drop_last().map_values(|line: Seq<char>| strip_return(line));
    let mut r: Vec<String> = Vec::new();
    for i in 0..last
        invariant
            last + 1 == pieces.len(),
            text_views(pieces@) == split(s@, '\n'),
            ended == split(s@, '\n').drop_last().map_values(|line: Seq<char>| strip_return(line)),
            text_views(r@) == ended.take(i as int),
    {
        let ghost done = text_views(r@);
        assert(text_views(pieces@)[i as int] == pieces@[i as int]@);
        let chars = chars_of(&pieces[i]);
        let n = chars.len();
        if n > 0 && chars[n - 1] == '\r' {
            let line = text_of(&chars[0..n - 1]);
            assert(line@ =~= strip_return(pieces@[i as int]@));
            r.push(line);
        } else {
            r.push(pieces[i].clone());
        }
        assert(text_views(r@) =~= done.push(strip_return(pieces@[i as int]@)));
        assert(ended.take(i + 1) =~= ended.take(i as int).push(ended[i as int]));
    }
    assert(ended.take(last as int) =~= ended);
    assert(text_views(pieces@)[last as int] == pieces@[last as int]@);
    if !pieces[last].as_str().is_empty() {
        r.push(pieces[last].clone());
        assert(text_views(r@) =~= ended.push(pieces@[last as int]@));
    }
    r
}

/// The views of texts are those of the single ones.
pub proof fn law_text_views(v: Seq<String>)
    ensures
        text_views(v).len() == v.len(),
        forall|i: int| 0 <= i < v.len() ==> #[trigger] text_views(v)[i] == v[i]@,
{
}

/// The encoding of a text is shown as that text.
pub proof fn law_lossy_of_text(text: Seq<char>)
    ensures
        lossy(encode_utf8(text)) == text,
{
    encode_utf8_valid_utf8(text);
    encode_utf8_decode_utf8(text);
}

/// Lines are read one by one: what stands after a line feed is read as if it stood alone, a line
/// loses its line feed and one carriage return before that, and an end without a line feed is a
/// line unless it is empty.
pub proof fn law_lines_one_by_one(a: Seq<char>, b: Seq<char>)
    ensures
        lines(a.push('\n') + b) == lines(a.push('\n')) + lines(b),
        !a.contains('\n') && a.len() > 0 && a.last() == '\r' ==> lines(a.push('\n')) == seq![
            a.drop_last(),
        ],
        !a.contains('\n') && (a.len() == 0 || a.last() != '\r') ==> lines(a.push('\n')) == seq![a],
        !a.contains('\n') && a.len() > 0 ==> lines(a) == seq![a],
        lines(Seq::<char>::empty()) == Seq::<Seq<char>>::empty(),
{
    let f = |line: Seq<char>| strip_return(line);
    let empty = Seq::<char>::empty();
    let first = split(a, '\n');
    let rest = split(b, '\n');
    crate::pieces::law_split_pieces(a, '\n');
    crate::pieces::law_split_pieces(b, '\n');
    crate::pieces::law_split_at_separator(a, b, '\n');
    crate::pieces::law_split_at_separator(a, empty, '\n');
    assert(a.push('\n') + empty =~= a.push('\n'));
    assert((first + seq![empty]).drop_last() =~= first);
    assert(lines(a.push('\n')) =~= first.map_values(f));
    assert((first + rest).drop_last() =~= first + rest.drop_last());
    assert((first + rest.drop_last()).map_values(f) =~= first.map_values(f)
        + rest.drop_last().map_values(f));
    assert(lines(a.push('\n') + b) =~= lines(a.push('\n')) + lines(b));
    if !a.contains('\n') {
        crate::pieces::lemma_split_plain(a, '\n');
        assert(lines(a.push('\n')) =~= seq![strip_return(a)]);
        if a.len() > 0 {
            assert(lines(a) =~= seq![a]);
        }
    }
    assert(lines(empty) =~= Seq::<Seq<char>>::empty());
}

} // verus!
