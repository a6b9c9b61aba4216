//! The process status file of procfs: user, group and parent of the running process.
use vstd::prelude::*;

use crate::decimal::{
    decimal, is_digit, law_number_of_decimal, lemma_decimal_digits, number, parse_number,
};
use crate::text::{chars_of, is_space, is_white_space, lines, lines_of, starts_with, text_views};

verus! {

/// Which identity the status file does not give.
#[derive(Clone, Copy, PartialEq, Eq, Structural, Debug)]
pub enum StatusError {
    Uid,
    Gid,
    Ppid,
}

impl StatusError {
    /// The message for a person.
    pub open spec fn text(self) -> Seq<char> {
        match self {
            StatusError::Uid => "failed to read uid from /proc/self/status"@,
            StatusError::Gid => "failed to read gid from /proc/self/status"@,
            StatusError::Ppid => "failed to read ppid from /proc/self/status"@,
        }
    }

    /// The message for a person.
    pub fn message(&self) -> (r: String)
        ensures
            r@ == self.text(),
    {
        match self {
            StatusError::Uid => "failed to read uid from /proc/self/status".to_string(),
            StatusError::Gid => "failed to read gid from /proc/self/status".to_string(),
            StatusError::Ppid => "failed to read ppid from /proc/self/status".to_string(),
        }
    }
}

/// The user, group and parent process of a process.
#[derive(Clone, Copy, PartialEq, Eq, Structural, Debug)]
pub struct Identity {
    pub uid: u32,
    pub gid: u32,
    pub ppid: u32,
}

/// `s` without the white space at its start.
pub open spec fn trimmed(s: Seq<char>) -> Seq<char>
    decreases s.len(),
{
    if s.len() > 0 && is_space(s[0]) {
        trimmed(s.skip(1))
    } else {
        s
    }
}

/// The characters of `s` before its first white space.
pub open spec fn leading_word(s: Seq<char>) -> Seq<char>
    decreases s.len(),
{
    if s.len() == 0 || is_space(s[0]) {
        Seq::empty()
    } else {
        seq![s[0]] + leading_word(s.skip(1))
    }
}

/// The number that the first word of `s` spells.
pub open spec fn first_number(s: Seq<char>) -> Option<u32> {
    number(leading_word(trimmed(s)))
}

/// The number after `label` on the last line that starts with it. A later line overrules an
/// earlier one even where no number follows its label.
pub open spec fn field(lines: Seq<Seq<char>>, label: Seq<char>) -> Option<u32>
    decreases lines.len(),
{
    if lines.len() == 0 {
        None
    } else if label.is_prefix_of(lines.last()) {
        first_number(lines.last().skip(label.len() as int))
    } else {
        field(lines.drop_last(), label)
    }
}

/// What a status text says of its process. The first identity that is missing, in the order
/// user, group, parent, is the error.
pub open spec fn identity(s: Seq<char>) -> Result<Identity, StatusError> {
    match (field(lines(s), "Uid:"@), field(lines(s), "Gid:"@), field(lines(s), "PPid:"@)) {
        (None, _, _) => Err(StatusError::Uid),
        (_, None, _) => Err(StatusError::Gid),
        (_, _, None) => Err(StatusError::Ppid),
        (Some(uid), Some(gid), Some(ppid)) => Ok(Identity { uid, gid, ppid }),
    }
}

/// The first number of `s` from position `from` on.
fn number_after(s: &[char], from: usize) -> (r: Option<u32>)
    requires
        from <= s@.len(),
    ensures
        r == first_number(s@.skip(from as int)),
{
    let ghost rest = s@.skip(from as int);
    let mut start: usize = from;
    while start < s.len() && is_white_space(s[start])
        invariant_except_break
            from <= start <= s@.len(),
            trimmed(rest) == trimmed(s@.skip(start as int)),
        ensures
            from <= start <= s@.len(),
            trimmed(rest) == s@.skip(start as int),
        decreases s@.len() - start,
    {
        assert(s@.skip(start as int).skip(1) =~= s@.skip(start + 1));
        start = start + 1;
    }
    let mut end: usize = start;
    while end < s.len() && !is_white_space(s[end])
        invariant
            start <= end <= s@.len(),
            leading_word(s@.skip(start as int)) == s@.subrange(start as int, end as int)
                + leading_word(s@.skip(end as int)),
        decreases s@.len() - end,
    {
        assert(s@.skip(end as int).skip(1) =~= s@.skip(end + 1));
        assert(s@.subrange(start as int, end + 1) =~= s@.subrange(start as int, end as int).push(
            s@[end as int],
        ));
        end = end + 1;
    }
    assert(leading_word(s@.skip(end as int)) =~= Seq::empty());
    assert(leading_word(trimmed(rest)) =~= s@.subrange(start as int, end as int));
    parse_number(&s[start..end])
}

proof fn lemma_labels_differ(line: Seq<char>)
    ensures
        "Uid:"@.is_prefix_of(line) ==> !"Gid:"@.is_prefix_of(line) && !"PPid:"@.is_prefix_of(line),
        "Gid:"@.is_prefix_of(line) ==> !"PPid:"@.is_prefix_of(line),
{
    reveal_strlit("Uid:");
    reveal_strlit("Gid:");
    reveal_strlit("PPid:");
    assert(line.len() >= 4 ==> line.subrange(0, 4)[0] == line[0]);
    assert(line.len() >= 5 ==> line.subrange(0, 5)[0] == line[0]);
}

/// Reads the identity of a process from the text of its status file.
pub fn parse_status(content: &str) -> (r: Result<Identity, StatusError>)
    ensures
        r == identity(content@),
{
    let all = lines_of(content);
    let ghost views = lines(content@);
    let mut uid: Option<u32> = None;
    let mut gid: Option<u32> = None;
    let mut ppid: Option<u32> = None;
    let uid_label = chars_of("Uid:");
    let gid_label = chars_of("Gid:");
    let ppid_label = chars_of("PPid:");
    for i in 0..all.len()
        invariant
            views == lines(content@),
            views == text_views(all@),
            uid_label@ == "Uid:"@,
            gid_label@ == "Gid:"@,
            ppid_label@ == "PPid:"@,
            uid == field(views.take(i as int), "Uid:"@),
            gid == field(views.take(i as int), "Gid:"@),
            ppid == field(views.take(i as int), "PPid:"@),
    {
        let line = chars_of(&all[i]);
        assert(views[i as int] == line@);
        assert(views.take(i + 1).drop_last() =~= views.take(i as int));
        proof {
            lemma_labels_differ(line@);
        }
        if starts_with(&line, &uid_label) {
            uid = number_after(&line, uid_label.len());
        } else if starts_with(&line, &gid_label) {
            gid = number_after(&line, gid_label.len());
        } else if starts_with(&line, &ppid_label) {
            ppid = number_after(&line, ppid_label.len());
        }
    }
    assert(views.take(views.len() as int) =~= views);
    match (uid, gid, ppid) {
        (None, _, _) => Err(StatusError::Uid),
        (_, None, _) => Err(StatusError::Gid),
        (_, _, None) => Err(StatusError::Ppid),
        (Some(uid), Some(gid), Some(ppid)) => Ok(Identity { uid, gid, ppid }),
    }
}

/// A number between white space is read, whatever follows the latter.
pub proof fn law_first_number(blank: Seq<char>, n: u32, rest: Seq<char>)
    requires
        forall|i: int| 0 <= i < blank.len() ==> is_space(#[trigger] blank[i]),
        rest.len() == 0 || is_space(rest[0]),
    ensures
        first_number(blank + decimal(n as nat) + rest) == Some(n),
{
    let digits = decimal(n as nat);
    law_number_of_decimal(n);
    lemma_decimal_digits(n as nat);
    assert forall|i: int| 0 <= i < digits.len() implies !is_space(#[trigger] digits[i]) by {
        assert(is_digit(digits[i]));
    }
    law_first_word(blank, digits, rest);
}

proof fn lemma_trimmed(blank: Seq<char>, rest: Seq<char>)
    requires
        forall|i: int| 0 <= i < blank.len() ==> is_space(#[trigger] blank[i]),
        rest.len() > 0,
        !is_space(rest[0]),
    ensures
        trimmed(blank + rest) == rest,
    decreases blank.len(),
{
    if blank.len() == 0 {
        assert(blank + rest =~= rest);
    } else {
        assert((blank + rest).skip(1) =~= blank.skip(1) + rest);
        assert(is_space(blank[0]));
        assert forall|i: int| 0 <= i < blank.skip(1).len() implies is_space(
            #[trigger] blank.skip(1)[i],
        ) by {
            assert(is_space(blank[i + 1]));
        }
        lemma_trimmed(blank.skip(1), rest);
    }
}

proof fn lemma_leading_word(word: Seq<char>, rest: Seq<char>)
    requires
        forall|i: int| 0 <= i < word.len() ==> !is_space(#[trigger] word[i]),
        rest.len() == 0 || is_space(rest[0]),
    ensures
        leading_word(word + rest) == word,
    decreases word.len(),
{
    if word.len() == 0 {
        assert(word + rest =~= rest);
        assert(leading_word(rest) =~= word);
    } else {
        assert((word + rest).skip(1) =~= word.skip(1) + rest);
        assert(!is_space(word[0]));
        assert forall|i: int| 0 <= i < word.skip(1).len() implies !is_space(
            #[trigger] word.skip(1)[i],
        ) by {
            assert(!is_space(word[i + 1]));
        }
        lemma_leading_word(word.skip(1), rest);
        assert(seq![word[0]] + word.skip(1) =~= word);
    }
}

/// The last line with a label is the one that counts.
pub proof fn law_last_line_counts(lines: Seq<Seq<char>>, label: Seq<char>, i: int)
    requires
        0 <= i < lines.len(),
        label.is_prefix_of(lines[i]),
        forall|k: int| i < k < lines.len() ==> !label.is_prefix_of(#[trigger] lines[k]),
    ensures
        field(lines, label) == first_number(lines[i].skip(label.len() as int)),
    decreases lines.len(),
{
    if i < lines.len() - 1 {
        assert(!label.is_prefix_of(lines[lines.len() - 1]));
        assert(lines.drop_last()[i] == lines[i]);
        assert(forall|k: int| i < k < lines.len() - 1 ==> #[trigger] lines.drop_last()[k] == lines[k]);
        law_last_line_counts(lines.drop_last(), label, i);
    }
}

/// The first word is what is read as a number, and nothing of what follows it.
pub proof fn law_first_word(blank: Seq<char>, word: Seq<char>, rest: Seq<char>)
    requires
        forall|i: int| 0 <= i < blank.len() ==> is_space(#[trigger] blank[i]),
        word.len() > 0,
        forall|i: int| 0 <= i < word.len() ==> !is_space(#[trigger] word[i]),
        rest.len() == 0 || is_space(rest[0]),
    ensures
        first_number(blank + word + rest) == number(word),
        first_number(blank) is None,
{
    assert(blank + word + rest =~= blank + (word + rest));
    assert(!is_space(word[0]));
    lemma_trimmed(blank, word + rest);
    lemma_leading_word(word, rest);
    lemma_trimmed_blank(blank);
}

proof fn lemma_trimmed_blank(blank: Seq<char>)
    requires
        forall|i: int| 0 <= i < blank.len() ==> is_space(#[trigger] blank[i]),
    ensures
        first_number(blank) is None,
    decreases blank.len(),
{
    if blank.len() > 0 {
        assert(is_space(blank[0]));
        assert forall|i: int| 0 <= i < blank.skip(1).len() implies is_space(
            #[trigger] blank.skip(1)[i],
        ) by {
            assert(is_space(blank[i + 1]));
        }
        lemma_trimmed_blank(blank.skip(1));
    } else {
        assert(leading_word(blank) =~= Seq::empty());
    }
}

/// A label that no line starts with gives nothing.
pub proof fn law_no_line(lines: Seq<Seq<char>>, label: Seq<char>)
    requires
        forall|k: int| 0 <= k < lines.len() ==> !label.is_prefix_of(#[trigger] lines[k]),
    ensures
        field(lines, label) is None,
    decreases lines.len(),
{
    if lines.len() > 0 {
        let init = lines.drop_last();
        assert(!label.is_prefix_of(lines[lines.len() - 1]));
        assert(forall|k: int| 0 <= k < init.len() ==> #[trigger] init[k] == lines[k]);
        law_no_line(init, label);
    }
}

/// The identity is read where the last lines with the three labels give numbers, wherever these
/// lines stand and whatever stands between them.
pub proof fn law_identity_read(
    s: Seq<char>,
    i: int,
    j: int,
    k: int,
    uid: u32,
    gid: u32,
    ppid: u32,
)
    requires
        0 <= i < lines(s).len(),
        0 <= j < lines(s).len(),
        0 <= k < lines(s).len(),
        "Uid:"@.is_prefix_of(lines(s)[i]),
        "Gid:"@.is_prefix_of(lines(s)[j]),
        "PPid:"@.is_prefix_of(lines(s)[k]),
        forall|n: int| i < n < lines(s).len() ==> !"Uid:"@.is_prefix_of(#[trigger] lines(s)[n]),
        forall|n: int| j < n < lines(s).len() ==> !"Gid:"@.is_prefix_of(#[trigger] lines(s)[n]),
        forall|n: int| k < n < lines(s).len() ==> !"PPid:"@.is_prefix_of(#[trigger] lines(s)[n]),
        first_number(lines(s)[i].skip(4)) == Some(uid),
        first_number(lines(s)[j].skip(4)) == Some(gid),
        first_number(lines(s)[k].skip(5)) == Some(ppid),
    ensures
        identity(s) == Ok::<Identity, StatusError>(Identity { uid, gid, ppid }),
{
    reveal_strlit("Uid:");
    reveal_strlit("Gid:");
    reveal_strlit("PPid:");
    law_last_line_counts(lines(s), "Uid:"@, i);
    law_last_line_counts(lines(s), "Gid:"@, j);
    law_last_line_counts(lines(s), "PPid:"@, k);
}

/// The error names the first identity without a number, in the order user, group, parent.
pub proof fn law_identity_missing(s: Seq<char>)
    ensures
        identity(s) == Err::<Identity, StatusError>(StatusError::Uid) <==> field(
            lines(s),
            "Uid:"@,
        ) is None,
        identity(s) == Err::<Identity, StatusError>(StatusError::Gid) <==> field(
            lines(s),
            "Uid:"@,
        ) is Some && field(lines(s), "Gid:"@) is None,
        identity(s) == Err::<Identity, StatusError>(StatusError::Ppid) <==> field(
            lines(s),
            "Uid:"@,
        ) is Some && field(lines(s), "Gid:"@) is Some && field(lines(s), "PPid:"@) is None,
{
}

} // verus!
