//! Settings that hold lists of words, and command lines as they are shown.
use vstd::prelude::*;
use vstd::string::*;
use vstd::utf8::*;

use crate::path::{file_name, file_name_spec, is_plain_name, DOT, SLASH};
use crate::pieces::{byte_views, has_elements, join, nonempty, split, split_text};
use crate::text::{chars_of, contains_char, decode_lossy, lossy, starts_with, text_of, text_views};

verus! {

/// The character that separates the words of a setting: the line feed where it occurs, so that
/// words can hold blanks, and the blank otherwise.
pub open spec fn word_separator(s: Seq<char>) -> char {
    if s.contains('\n') {
        '\n'
    } else {
        ' '
    }
}

/// The words of a setting.
pub open spec fn words(s: Seq<char>) -> Seq<Seq<char>> {
    nonempty(split(s, word_separator(s)))
}

/// The items of a list whose words hold items between commas.
pub open spec fn comma_items(s: Seq<char>) -> Seq<Seq<char>> {
    items_of(words(s))
}

/// The items between the commas of words.
pub open spec fn items_of(words: Seq<Seq<char>>) -> Seq<Seq<char>> {
    words.flat_map(|word: Seq<char>| nonempty(split(word, ',')))
}

/// The texts that are not empty.
fn keep_nonempty(given: Vec<String>) -> (r: Vec<String>)
    ensures
        text_views(r@) == nonempty(text_views(given@)),
{
    let ghost views = text_views(given@);
    let mut r: Vec<String> = Vec::new();
    proof {
        reveal(Seq::filter);
        assert(views.take(0) =~= Seq::empty());
        assert(text_views(r@) =~= nonempty(views.take(0)));
    }
    for i in 0..given.len()
        invariant
            views == text_views(given@),
            text_views(r@) == nonempty(views.take(i as int)),
    {
        let ghost done = text_views(r@);
        proof {
            assert(views[i as int] == given@[i as int]@);
            assert(views.take(i + 1) =~= views.take(i as int).push(views[i as int]));
            views.take(i as int).lemma_filter_push(views[i as int], has_elements());
        }
        if !given[i].as_str().is_empty() {
            r.push(given[i].clone());
            assert(text_views(r@) =~= done.push(views[i as int]));
        }
    }
    assert(views.take(views.len() as int) =~= views);
    r
}

/// The words of a setting, separated by line feeds where there is one and by blanks otherwise.
pub fn split_args_by_lf(s: &str) -> (r: Vec<String>)
    ensures
        text_views(r@) == words(s@),
{
    if contains_char(s, '\n') {
        keep_nonempty(split_text(s, '\n'))
    } else {
        keep_nonempty(split_text(s, ' '))
    }
}

/// The paths to bind that a setting lists, separated by commas within its words.
pub fn parse_sandbox_ro_bind(val: &str) -> (r: Vec<String>)
    ensures
        text_views(r@) == comma_items(val@),
{
    let tokens = split_args_by_lf(val);
    let ghost all = words(val@);
    let ghost items = |word: Seq<char>| nonempty(split(word, ','));
    let mut r: Vec<String> = Vec::new();
    proof {
        assert(all.take(0).flat_map(items) =~= Seq::empty());
        assert(text_views(r@) =~= all.take(0).flat_map(items));
    }
    for i in 0..tokens.len()
        invariant
            all == text_views(tokens@),
            items == (|word: Seq<char>| nonempty(split(word, ','))),
            text_views(r@) == all.take(i as int).flat_map(items),
    {
        let ghost done = text_views(r@);
        let mut more = keep_nonempty(split_text(&tokens[i], ','));
        let ghost added = text_views(more@);
        r.append(&mut more);
        proof {
            assert(all[i as int] == tokens@[i as int]@);
            assert(text_views(r@) =~= done + added);
            all.lemma_flat_map_take_append(items, i as int);
        }
    }
    assert(all.take(all.len() as int) =~= all);
    r
}

/// A text between quotes where it holds a blank.
pub open spec fn quoted(s: Seq<char>) -> Seq<char> {
    if s.contains(' ') {
        seq!['\''] + s + seq!['\'']
    } else {
        s
    }
}

/// An argument as it is shown: one inside the working directory relative to the name of that
/// directory, any other one quoted where it must be.
pub open spec fn shown(s: Seq<char>, cwd: Seq<char>, cwd_base: Seq<char>) -> Seq<char> {
    if cwd.push('/').is_prefix_of(s) {
        cwd_base.push('/') + s.skip(cwd.len() as int + 1)
    } else {
        quoted(s)
    }
}

/// A command line as it is shown: its arguments with a blank after each.
pub open spec fn shown_line(
    args: Seq<Seq<char>>,
    cwd: Seq<char>,
    cwd_base: Seq<char>,
) -> Seq<char> {
    join(args.map_values(|s: Seq<char>| shown(s, cwd, cwd_base)), ' ').push(' ')
}

/// The texts shown for byte strings.
pub open spec fn lossy_each(args: Seq<Seq<u8>>) -> Seq<Seq<char>> {
    args.map_values(|b: Seq<u8>| lossy(b))
}

/// The text shown for the name of a directory; empty where it has none.
pub open spec fn base_text(path: Seq<u8>) -> Seq<char> {
    match file_name_spec(path) {
        Some(name) => lossy(name),
        None => Seq::empty(),
    }
}

/// A text between quotes where it holds a blank.
pub fn quote(s: &str) -> (r: String)
    ensures
        r@ == quoted(s@),
{
    if contains_char(s, ' ') {
        let mut r = String::new();
        r.push('\'');
        r.append(s);
        r.push('\'');
        assert(r@ =~= seq!['\''] + s@ + seq!['\'']);
        r
    } else {
        s.to_string()
    }
}

/// An argument as it is shown.
pub fn show_arg(s: &str, cwd: &str, cwd_base: &str) -> (r: String)
    ensures
        r@ == shown(s@, cwd@, cwd_base@),
{
    let chars = chars_of(s);
    let mut prefix = chars_of(cwd);
    prefix.push('/');
    if starts_with(&chars, &prefix) {
        let rest = text_of(&chars[prefix.len()..chars.len()]);
        assert(rest@ =~= s@.skip(cwd@.len() as int + 1));
        let mut r = cwd_base.to_string();
        r.push('/');
        r.append(&rest);
        r
    } else {
        quote(s)
    }
}

/// The texts one after another with one `sep` between neighbours.
pub fn join_text(parts: &Vec<String>, sep: char) -> (r: String)
    ensures
        r@ == join(text_views(parts@), sep),
{
    let ghost views = text_views(parts@);
    let mut r = String::new();
    for i in 0..parts.len()
        invariant
            views == text_views(parts@),
            r@ == join(views.take(i as int), sep),
    {
        assert(views[i as int] == parts@[i as int]@);
        assert(views.take(i + 1).drop_last() =~= views.take(i as int));
        if i > 0 {
            r.push(sep);
        }
        let ghost before = r@;
        r.append(&parts[i]);
        assert(i == 0 ==> before + views[0] =~= views[0]);
    }
    assert(views.take(views.len() as int) =~= views);
    r
}

/// Shows a command line whose arguments are given as text.
pub fn show_line(args: &Vec<String>, cwd: &str, cwd_base: &str) -> (r: String)
    ensures
        r@ == shown_line(text_views(args@), cwd@, cwd_base@),
{
    let ghost views = text_views(args@);
    let ghost all = views.map_values(|s: Seq<char>| shown(s, cwd@, cwd_base@));
    let mut parts: Vec<String> = Vec::new();
    assert(text_views(parts@) =~= all.take(0));
    for i in 0..args.len()
        invariant
            views == text_views(args@),
            all == views.map_values(|s: Seq<char>| shown(s, cwd@, cwd_base@)),
            text_views(parts@) == all.take(i as int),
    {
        let ghost done = text_views(parts@);
        parts.push(show_arg(&args[i], cwd, cwd_base));
        assert(text_views(parts@) =~= done.push(all[i as int]));
        assert(all.take(i + 1) =~= all.take(i as int).push(all[i as int]));
    }
    assert(all.take(all.len() as int) =~= all);
    let mut r = join_text(&parts, ' ');
    r.push(' ');
    r
}

/// The texts shown for byte strings.
fn decode_each(args: &Vec<Vec<u8>>) -> (r: Vec<String>)
    ensures
        text_views(r@) == lossy_each(byte_views(args@)),
{
    let ghost all = lossy_each(byte_views(args@));
    let mut r: Vec<String> = Vec::new();
    assert(text_views(r@) =~= all.take(0));
    for i in 0..args.len()
        invariant
            all == lossy_each(byte_views(args@)),
            text_views(r@) == all.take(i as int),
    {
        let ghost done = text_views(r@);
        r.push(decode_lossy(&args[i]));
        assert(text_views(r@) =~= done.push(all[i as int]));
        assert(all.take(i + 1) =~= all.take(i as int).push(all[i as int]));
    }
    assert(all.take(all.len() as int) =~= all);
    r
}

/// Shows the command that is about to run: the binary and its arguments.
pub fn format_args_display(bin: &[u8], user_args: &Vec<Vec<u8>>, cwd: &[u8]) -> (r: String)
    ensures
        r@ == shown_line(
            lossy_each(seq![bin@] + byte_views(user_args@)),
            lossy(cwd@),
            base_text(cwd@),
        ),
{
    let cwd_text = decode_lossy(cwd);
    let cwd_base = match file_name(cwd) {
        Some(name) => decode_lossy(&name),
        None => String::new(),
    };
    let mut texts: Vec<String> = Vec::new();
    texts.push(decode_lossy(bin));
    let mut rest = decode_each(user_args);
    let ghost rest_views = text_views(rest@);
    texts.append(&mut rest);
    assert(text_views(texts@) =~= seq![lossy(bin@)] + rest_views);
    assert(text_views(texts@) =~= lossy_each(seq![bin@] + byte_views(user_args@)));
    show_line(&texts, &cwd_text, &cwd_base)
}

/// The trace of a `bwrap` call with the given arguments.
pub open spec fn traced(args: Seq<Seq<char>>) -> Seq<char> {
    "+ bwrap "@ + join(args.map_values(|s: Seq<char>| quoted(s)), ' ')
}

/// Traces a `bwrap` call whose arguments are given as text.
pub fn trace_line(args: &Vec<String>) -> (r: String)
    ensures
        r@ == traced(text_views(args@)),
{
    let ghost views = text_views(args@);
    let ghost all = views.map_values(|s: Seq<char>| quoted(s));
    let mut parts: Vec<String> = Vec::new();
    assert(text_views(parts@) =~= all.take(0));
    for i in 0..args.len()
        invariant
            views == text_views(args@),
            all == views.map_values(|s: Seq<char>| quoted(s)),
            text_views(parts@) == all.take(i as int),
    {
        let ghost done = text_views(parts@);
        parts.push(quote(&args[i]));
        assert(text_views(parts@) =~= done.push(all[i as int]));
        assert(all.take(i + 1) =~= all.take(i as int).push(all[i as int]));
    }
    assert(all.take(all.len() as int) =~= all);
    let mut r = "+ bwrap ".to_string();
    r.append(&join_text(&parts, ' '));
    r
}

/// Traces a `bwrap` call.
pub fn trace_call(argv: &Vec<Vec<u8>>) -> (r: String)
    ensures
        r@ == traced(lossy_each(byte_views(argv@))),
{
    trace_line(&decode_each(argv))
}

proof fn lemma_nonempty_all<T>(pieces: Seq<Seq<T>>)
    requires
        forall|i: int| 0 <= i < pieces.len() ==> (#[trigger] pieces[i]).len() > 0,
    ensures
        nonempty(pieces) == pieces,
    decreases pieces.len(),
{
    reveal(Seq::filter);
    if pieces.len() > 0 {
        lemma_nonempty_all(pieces.drop_last());
        assert(pieces.drop_last().push(pieces.last()) =~= pieces);
    }
}

proof fn lemma_nonempty_pieces<T>(s: Seq<T>, sep: T)
    ensures
        forall|i: int|
            0 <= i < nonempty(split(s, sep)).len() ==> {
                let piece = #[trigger] nonempty(split(s, sep))[i];
                piece.len() > 0 && !piece.contains(sep)
            },
{
    let pieces = split(s, sep);
    let pred = has_elements::<T>();
    crate::pieces::law_split_pieces(s, sep);
    assert forall|i: int| 0 <= i < nonempty(pieces).len() implies {
        let piece = #[trigger] nonempty(pieces)[i];
        piece.len() > 0 && !piece.contains(sep)
    } by {
        let piece = pieces.filter(pred)[i];
        pieces.lemma_filter_pred(pred, i);
        assert(pieces.filter(pred).contains(piece));
        pieces.lemma_filter_contains_rev(pred, piece);
        let k = choose|k: int| 0 <= k < pieces.len() && pieces[k] == piece;
    }
}

proof fn lemma_no_words()
    ensures
        words(Seq::<char>::empty()) == Seq::<Seq<char>>::empty(),
{
    reveal(Seq::filter);
    let pieces = split(Seq::<char>::empty(), ' ');
    assert(pieces.drop_last() =~= Seq::<Seq<char>>::empty());
    assert(nonempty(pieces.drop_last()) =~= Seq::<Seq<char>>::empty());
}

/// No word of a setting is empty, and none holds the character that separates the words.
pub proof fn law_words(s: Seq<char>)
    ensures
        forall|i: int|
            0 <= i < words(s).len() ==> {
                let word = #[trigger] words(s)[i];
                &&& word.len() > 0
                &&& !word.contains(word_separator(s))
            },
{
    lemma_nonempty_pieces(s, word_separator(s));
}

/// Words without line feeds come back from the setting that lists them on lines of their own.
/// A single word can hold no blank: nothing then shows that lines were meant.
pub proof fn law_words_of_lines(list: Seq<Seq<char>>)
    requires
        list.len() == 1 ==> !list[0].contains(' '),
        forall|i: int|
            0 <= i < list.len() ==> (#[trigger] list[i]).len() > 0 && !list[i].contains('\n'),
    ensures
        words(join(list, '\n')) == list,
{
    let s = join(list, '\n');
    if list.len() > 1 {
        let head = join(list.drop_last(), '\n');
        assert(s[head.len() as int] == '\n');
        assert(s.contains('\n'));
        crate::pieces::law_split_join(list, '\n');
        lemma_nonempty_all(list);
    } else if list.len() == 1 {
        assert(s == list[0]);
        assert(list =~= seq![s]);
        crate::pieces::law_split_join(list, ' ');
        lemma_nonempty_all(list);
    } else {
        lemma_no_words();
        assert(list =~= Seq::empty());
    }
}

/// Words without line feeds come back from the setting that lists them with a line feed after
/// each, whatever else they hold and however many they are.
pub proof fn law_words_of_ended_lines(list: Seq<Seq<char>>)
    requires
        forall|i: int|
            0 <= i < list.len() ==> (#[trigger] list[i]).len() > 0 && !list[i].contains('\n'),
    ensures
        words(join(list, '\n').push('\n')) == list,
{
    let s = join(list, '\n');
    let ended = s.push('\n');
    let pieces = split(s, '\n');
    let empty = Seq::<char>::empty();
    assert(ended[s.len() as int] == '\n');
    assert(ended.drop_last() =~= s);
    assert(split(ended, '\n') == pieces.push(empty));
    pieces.lemma_filter_push(empty, has_elements());
    if list.len() > 0 {
        crate::pieces::law_split_join(list, '\n');
        lemma_nonempty_all(list);
    } else {
        lemma_no_words();
        assert(!s.contains('\n'));
        assert(pieces == split(s, ' '));
        assert(list =~= Seq::empty());
    }
}

/// Words without blanks and line feeds come back from the setting that lists them with blanks
/// in between.
pub proof fn law_words_of_blanks(list: Seq<Seq<char>>)
    requires
        forall|i: int|
            0 <= i < list.len() ==> (#[trigger] list[i]).len() > 0 && !list[i].contains(' ')
                && !list[i].contains('\n'),
    ensures
        words(join(list, ' ')) == list,
{
    if list.len() == 0 {
        lemma_no_words();
        assert(list =~= Seq::empty());
    } else {
        lemma_join_without(list, ' ', '\n');
        crate::pieces::law_split_join(list, ' ');
        lemma_nonempty_all(list);
    }
}

proof fn lemma_join_without(list: Seq<Seq<char>>, sep: char, c: char)
    requires
        c != sep,
        forall|i: int| 0 <= i < list.len() ==> !(#[trigger] list[i]).contains(c),
    ensures
        !join(list, sep).contains(c),
    decreases list.len(),
{
    if list.len() == 1 {
        assert(!list[0].contains(c));
    } else if list.len() > 1 {
        let head = join(list.drop_last(), sep);
        let all = join(list, sep);
        lemma_join_without(list.drop_last(), sep, c);
        assert(!list[list.len() - 1].contains(c));
        if all.contains(c) {
            let k = choose|k: int| 0 <= k < all.len() && all[k] == c;
            if k < head.len() {
                assert(head[k] == c);
            } else if k > head.len() {
                assert(list.last()[k - head.len() - 1] == c);
            }
        }
    }
}

/// No item of a list is empty, and none holds a comma.
pub proof fn law_comma_items(s: Seq<char>)
    ensures
        forall|i: int|
            0 <= i < comma_items(s).len() ==> {
                let item = #[trigger] comma_items(s)[i];
                item.len() > 0 && !item.contains(',')
            },
{
    let all = words(s);
    lemma_items_upto(all, all.len() as int);
    assert(all.take(all.len() as int) =~= all);
}

proof fn lemma_items_upto(all: Seq<Seq<char>>, n: int)
    requires
        0 <= n <= all.len(),
    ensures
        forall|i: int|
            0 <= i < items_of(all.take(n)).len() ==> {
                let item = #[trigger] items_of(all.take(n))[i];
                item.len() > 0 && !item.contains(',')
            },
    decreases n,
{
    let f = |word: Seq<char>| nonempty(split(word, ','));
    if n == 0 {
        assert(all.take(0).flat_map(f) =~= Seq::empty());
    } else {
        lemma_items_upto(all, n - 1);
        lemma_nonempty_pieces(all[n - 1], ',');
        all.lemma_flat_map_take_append(f, n - 1);
        let before = items_of(all.take(n - 1));
        let items = items_of(all.take(n));
        assert forall|i: int| 0 <= i < items.len() implies {
            let item = #[trigger] items[i];
            item.len() > 0 && !item.contains(',')
        } by {
            if i < before.len() {
                assert(items[i] == before[i]);
            } else {
                assert(items[i] == nonempty(split(all[n - 1], ','))[i - before.len()]);
            }
        }
    }
}

/// Items without commas, blanks and line feeds come back from the list that separates them by
/// commas.
pub proof fn law_items_of_commas(list: Seq<Seq<char>>)
    requires
        forall|i: int|
            0 <= i < list.len() ==> (#[trigger] list[i]).len() > 0 && !list[i].contains(',')
                && !list[i].contains(' ') && !list[i].contains('\n'),
    ensures
        comma_items(join(list, ',')) == list,
{
    let s = join(list, ',');
    if list.len() == 0 {
        lemma_no_words();
        assert(comma_items(s) =~= list);
    } else {
        lemma_join_without(list, ',', '\n');
        lemma_join_without(list, ',', ' ');
        crate::pieces::law_split_join(list, ',');
        lemma_nonempty_all(list);
        lemma_join_length(list);
        assert(!seq![s][0].contains(' '));
        law_words_of_lines(seq![s]);
        assert(join(seq![s], '\n') == s);
        seq![s].lemma_flat_map_singleton(|word: Seq<char>| nonempty(split(word, ',')));
    }
}

proof fn lemma_join_length(list: Seq<Seq<char>>)
    requires
        list.len() > 0,
        list[0].len() > 0,
    ensures
        join(list, ',').len() > 0,
{
}

/// Nothing and an empty line list no word and no item.
pub proof fn law_no_items()
    ensures
        words(Seq::<char>::empty()) == Seq::<Seq<char>>::empty(),
        words(seq!['\n']) == Seq::<Seq<char>>::empty(),
        comma_items(Seq::<char>::empty()) == Seq::<Seq<char>>::empty(),
        comma_items(seq!['\n']) == Seq::<Seq<char>>::empty(),
{
    let empty = Seq::<char>::empty();
    lemma_no_words();
    law_words_line_by_line(empty, empty);
    assert(empty.push('\n') =~= seq!['\n']);
    assert(items_of(Seq::<Seq<char>>::empty()) =~= Seq::<Seq<char>>::empty());
}

proof fn lemma_parts<T>(a: Seq<T>, b: Seq<T>, sep: T)
    ensures
        nonempty(split(a.push(sep) + b, sep)) == nonempty(split(a, sep)) + nonempty(split(b, sep)),
        nonempty(split(a.push(sep), sep)) == nonempty(split(a, sep)),
        !a.contains(sep) && a.len() > 0 ==> nonempty(split(a, sep)) == seq![a],
        nonempty(split(Seq::<T>::empty(), sep)) == Seq::<Seq<T>>::empty(),
{
    let empty = Seq::<T>::empty();
    crate::pieces::law_split_at_separator(a, b, sep);
    crate::pieces::law_nonempty_parts(split(a, sep), split(b, sep), a);
    crate::pieces::law_split_at_separator(a, empty, sep);
    crate::pieces::law_nonempty_parts(split(a, sep), split(empty, sep), empty);
    assert(a.push(sep) + empty =~= a.push(sep));
    assert(nonempty(split(a, sep)) + Seq::<Seq<T>>::empty() =~= nonempty(split(a, sep)));
    if !a.contains(sep) {
        crate::pieces::lemma_split_plain(a, sep);
    }
}

proof fn lemma_items_parts(a: Seq<Seq<char>>, b: Seq<Seq<char>>)
    ensures
        items_of(a + b) == items_of(a) + items_of(b),
        items_of(Seq::<Seq<char>>::empty()) == Seq::<Seq<char>>::empty(),
{
    let f = |word: Seq<char>| nonempty(split(word, ','));
    assert((a + b).map_values(f) =~= a.map_values(f) + b.map_values(f));
    vstd::seq_lib::lemma_flatten_concat(a.map_values(f), b.map_values(f));
    assert(items_of(Seq::<Seq<char>>::empty()) =~= Seq::<Seq<char>>::empty());
}

/// A line feed anywhere makes lines of the whole setting: each line gives its own words, whatever
/// stands before and after it, and a line that is not empty is one word, blanks and all.
pub proof fn law_words_line_by_line(a: Seq<char>, b: Seq<char>)
    ensures
        words(a.push('\n') + b.push('\n')) == words(a.push('\n')) + words(b.push('\n')),
        words(a.push('\n') + b) == words(a.push('\n') + b.push('\n')),
        !a.contains('\n') ==> words(a.push('\n')) == if a.len() > 0 {
            seq![a]
        } else {
            Seq::empty()
        },
{
    let whole = a.push('\n') + b;
    assert(a.push('\n')[a.len() as int] == '\n');
    assert(b.push('\n')[b.len() as int] == '\n');
    assert(whole[a.len() as int] == '\n');
    assert(whole.push('\n')[a.len() as int] == '\n');
    assert(a.push('\n') + b.push('\n') =~= whole.push('\n'));
    lemma_parts(a, b, '\n');
    lemma_parts(whole, Seq::empty(), '\n');
    lemma_parts(b, Seq::empty(), '\n');
    if a.len() == 0 {
        assert(a =~= Seq::empty());
    }
}

/// Without a line feed, each blank ends a word: the words before and after it are found on their
/// own, and what holds no blank is one word.
pub proof fn law_words_blank_by_blank(a: Seq<char>, b: Seq<char>)
    requires
        !a.contains('\n'),
        !b.contains('\n'),
    ensures
        words(a.push(' ') + b) == words(a) + words(b),
        a.len() > 0 && !a.contains(' ') ==> words(a) == seq![a],
{
    let whole = a.push(' ') + b;
    if whole.contains('\n') {
        let k = choose|k: int| 0 <= k < whole.len() && whole[k] == '\n';
        if k < a.len() {
            assert(a[k] == '\n');
        } else if k > a.len() {
            assert(b[k - a.len() - 1] == '\n');
        }
    }
    lemma_parts(a, b, ' ');
}

/// Lists of items are read line by line and, without a line feed, blank by blank.
pub proof fn law_items_word_by_word(a: Seq<char>, b: Seq<char>)
    ensures
        comma_items(a.push('\n') + b.push('\n')) == comma_items(a.push('\n')) + comma_items(
            b.push('\n'),
        ),
        comma_items(a.push('\n') + b) == comma_items(a.push('\n') + b.push('\n')),
        !a.contains('\n') && !b.contains('\n') ==> comma_items(a.push(' ') + b) == comma_items(a)
            + comma_items(b),
{
    law_words_line_by_line(a, b);
    lemma_items_parts(words(a.push('\n')), words(b.push('\n')));
    if !a.contains('\n') && !b.contains('\n') {
        law_words_blank_by_blank(a, b);
        lemma_items_parts(words(a), words(b));
    }
}

proof fn lemma_items_of_word(w: Seq<char>)
    requires
        !w.contains('\n'),
    ensures
        comma_items(w.push('\n')) == nonempty(split(w, ',')),
        !w.contains(' ') ==> comma_items(w) == nonempty(split(w, ',')),
{
    let f = |word: Seq<char>| nonempty(split(word, ','));
    law_words_line_by_line(w, Seq::empty());
    lemma_parts(w, Seq::empty(), ',');
    lemma_items_parts(Seq::empty(), Seq::empty());
    if w.len() > 0 {
        seq![w].lemma_flat_map_singleton(f);
        law_words_blank_by_blank(w, Seq::empty());
    } else {
        assert(w =~= Seq::empty());
        lemma_no_words();
    }
}

proof fn lemma_joined_lacks(a: Seq<char>, b: Seq<char>, sep: char, c: char)
    requires
        !a.contains(c),
        !b.contains(c),
        sep != c,
    ensures
        !(a.push(sep) + b).contains(c),
{
    let whole = a.push(sep) + b;
    if whole.contains(c) {
        let k = choose|k: int| 0 <= k < whole.len() && whole[k] == c;
        if k < a.len() {
            assert(a[k] == c);
        } else if k > a.len() {
            assert(b[k - a.len() - 1] == c);
        }
    }
}

/// Within a word, each comma ends an item, be the word a line or what stands between blanks.
pub proof fn law_items_comma_by_comma(a: Seq<char>, b: Seq<char>)
    requires
        !a.contains('\n'),
        !b.contains('\n'),
    ensures
        comma_items((a.push(',') + b).push('\n')) == comma_items(a.push('\n')) + comma_items(
            b.push('\n'),
        ),
        !a.contains(' ') && !b.contains(' ') ==> comma_items(a.push(',') + b) == comma_items(a)
            + comma_items(b),
        a.len() > 0 && !a.contains(',') ==> comma_items(a.push('\n')) == seq![a],
        a.len() > 0 && !a.contains(',') && !a.contains(' ') ==> comma_items(a) == seq![a],
{
    let whole = a.push(',') + b;
    lemma_joined_lacks(a, b, ',', '\n');
    if !a.contains(' ') && !b.contains(' ') {
        lemma_joined_lacks(a, b, ',', ' ');
    }
    lemma_items_of_word(whole);
    lemma_items_of_word(a);
    lemma_items_of_word(b);
    lemma_parts(a, b, ',');
}

/// A text is shown as it is where it holds no blank, and otherwise with one quote before and one
/// after it.
pub proof fn law_quoted(s: Seq<char>)
    ensures
        !s.contains(' ') ==> quoted(s) == s,
        s.contains(' ') ==> {
            &&& quoted(s).len() == s.len() + 2
            &&& quoted(s).first() == '\''
            &&& quoted(s).last() == '\''
            &&& quoted(s).subrange(1, s.len() as int + 1) == s
        },
{
    if s.contains(' ') {
        assert(quoted(s).subrange(1, s.len() as int + 1) =~= s);
    }
}

/// What lies below the working directory is shown below the name of that directory, blanks and
/// all; anything else is quoted where it must be.
pub proof fn law_shown(cwd: Seq<char>, cwd_base: Seq<char>, rest: Seq<char>, other: Seq<char>)
    requires
        !cwd.push('/').is_prefix_of(other),
    ensures
        shown(cwd + seq!['/'] + rest, cwd, cwd_base) == cwd_base + seq!['/'] + rest,
        shown(other, cwd, cwd_base) == quoted(other),
{
    let s = cwd + seq!['/'] + rest;
    assert(s.subrange(0, cwd.len() as int + 1) =~= cwd.push('/'));
    assert(cwd.push('/').is_prefix_of(s));
    assert(s.skip(cwd.len() as int + 1) =~= rest);
    assert(cwd_base.push('/') + rest =~= cwd_base + seq!['/'] + rest);
}

/// A command line grows by each argument as it is shown and a blank.
pub proof fn law_shown_line_grows(
    args: Seq<Seq<char>>,
    arg: Seq<char>,
    cwd: Seq<char>,
    cwd_base: Seq<char>,
)
    ensures
        shown_line(seq![arg], cwd, cwd_base) == shown(arg, cwd, cwd_base).push(' '),
        args.len() > 0 ==> shown_line(args.push(arg), cwd, cwd_base) == shown_line(
            args,
            cwd,
            cwd_base,
        ) + shown(arg, cwd, cwd_base).push(' '),
{
    let f = |s: Seq<char>| shown(s, cwd, cwd_base);
    let parts = args.map_values(f);
    crate::pieces::law_join_grows(parts, f(arg), ' ');
    assert(seq![arg].map_values(f) =~= seq![f(arg)]);
    assert(args.push(arg).map_values(f) =~= parts.push(f(arg)));
    assert((join(parts, ' ') + seq![' '] + f(arg)).push(' ') =~= join(parts, ' ').push(' ') + f(
        arg,
    ).push(' '));
}

/// A trace grows by a blank and each further argument, quoted where it must be.
pub proof fn law_traced_grows(args: Seq<Seq<char>>, arg: Seq<char>)
    ensures
        traced(seq![arg]) == "+ bwrap "@ + quoted(arg),
        args.len() > 0 ==> traced(args.push(arg)) == traced(args) + seq![' '] + quoted(arg),
{
    let f = |s: Seq<char>| quoted(s);
    let parts = args.map_values(f);
    crate::pieces::law_join_grows(parts, f(arg), ' ');
    assert(seq![arg].map_values(f) =~= seq![f(arg)]);
    assert(args.push(arg).map_values(f) =~= parts.push(f(arg)));
    assert("+ bwrap "@ + (join(parts, ' ') + seq![' '] + f(arg)) =~= "+ bwrap "@ + join(parts, ' ')
        + seq![' '] + f(arg));
}

/// Each byte string is shown on its own, and one that is the encoding of a text as that text.
pub proof fn law_lossy_each(args: Seq<Seq<u8>>, i: int, text: Seq<char>)
    requires
        0 <= i < args.len(),
    ensures
        lossy_each(args).len() == args.len(),
        lossy_each(args)[i] == lossy(args[i]),
        args[i] == encode_utf8(text) ==> lossy_each(args)[i] == text,
{
    encode_utf8_valid_utf8(text);
    encode_utf8_decode_utf8(text);
}

/// A directory is named by the text that its last name shows; the root and a path that ends with
/// two dots have no name.
pub proof fn law_name_of_directory(dir: Seq<u8>, name: Seq<u8>)
    requires
        dir.len() > 0,
        is_plain_name(name),
    ensures
        base_text(name) == lossy(name),
        base_text(seq![SLASH] + name) == lossy(name),
        base_text(dir + seq![SLASH] + name) == lossy(name),
        base_text(dir + seq![SLASH]) == base_text(dir),
        base_text(dir + seq![SLASH, DOT]) == base_text(dir),
        base_text(dir + seq![SLASH, DOT, DOT]) == Seq::<char>::empty(),
        base_text(seq![SLASH]) == Seq::<char>::empty(),
{
    crate::path::law_file_name(dir, name);
    crate::path::law_first_steps(name);
}

/// What is displayed of a command is the binary and then, argument by argument, the rest: one more
/// argument adds its own text and a blank.
pub proof fn law_display_grows(
    bin: &[u8],
    user_args: &Vec<Vec<u8>>,
    arg: Vec<u8>,
    more: &Vec<Vec<u8>>,
    cwd: &[u8],
    r: String,
    grown: String,
)
    requires
        more@ == user_args@.push(arg),
        call_ensures(format_args_display, (bin, user_args, cwd), r),
        call_ensures(format_args_display, (bin, more, cwd), grown),
    ensures
        user_args@.len() == 0 ==> r@ == shown(lossy(bin@), lossy(cwd@), base_text(cwd@)).push(' '),
        grown@ == r@ + shown(lossy(arg@), lossy(cwd@), base_text(cwd@)).push(' '),
{
    let all = lossy_each(seq![bin@] + byte_views(user_args@));
    law_shown_line_grows(all, lossy(arg@), lossy(cwd@), base_text(cwd@));
    assert(lossy_each(seq![bin@] + byte_views(more@)) =~= all.push(lossy(arg@)));
    if user_args@.len() == 0 {
        law_shown_line_grows(all, lossy(bin@), lossy(cwd@), base_text(cwd@));
        assert(all =~= seq![lossy(bin@)]);
    }
}

} // verus!
