//! The taskfile grammar, line by line: what each kind of line means, and the
//! functions that read one.

use vstd::prelude::*;
use vstd::string::*;
use crate::error::ParseErrorKind;
use crate::text::{
    first_index, is_space, is_trim_window, lemma_first_index, lemma_leading, lemma_leading_bounds, lemma_trim_bounds, lemma_trimmed_window, trim_from,
    trim_to, chars_of, has_char, split_first, split_first_str, strip, strip_end, strip_start, strip_start_str,
    strip_str, trim_str, trimmed, CharClass,
};

verus! {

/// What a line is, judged by its trimmed text.
#[derive(Clone, Copy, Debug, PartialEq, Eq, Structural)]
pub enum LineKind {
    Blank,
    Comment,
    Variable,
    Section,
    Task,
    Invalid,
}

/// The kind of the trimmed line `t`. The order of the tests matters: a line
/// that starts with `.` is a variable whatever else it holds, and `=` is
/// looked for before `:`.
pub open spec fn line_kind(t: Seq<char>) -> LineKind {
    if t.len() == 0 {
        LineKind::Blank
    } else if t[0] == '#' {
        LineKind::Comment
    } else if t[0] == '.' {
        LineKind::Variable
    } else if t.contains('=') {
        LineKind::Section
    } else if t.contains(':') {
        LineKind::Task
    } else {
        LineKind::Invalid
    }
}

/// Whether the trimmed line `t` is skipped: blank or a comment.
pub open spec fn is_skipped(t: Seq<char>) -> bool {
    t.len() == 0 || t[0] == '#'
}

/// Key and value of the variable line `t`.
pub open spec fn var_parts(t: Seq<char>) -> Result<(Seq<char>, Seq<char>), ParseErrorKind> {
    match split_first(t, '=') {
        None => Err(ParseErrorKind::InvalidVariable),
        Some((left, right)) => {
            if trimmed(right).len() == 0 {
                Err(ParseErrorKind::MissingValue)
            } else {
                Ok((trimmed(strip_start(left, CharClass::Only('.'))), trimmed(right)))
            }
        },
    }
}

/// The name that the section line `t` gives.
pub open spec fn section_name(t: Seq<char>) -> Result<Seq<char>, ParseErrorKind> {
    match split_first(t, '=') {
        None => Err(ParseErrorKind::InvalidSection),
        Some((_, right)) => {
            let name = strip(trimmed(right), CharClass::Only('"'));
            if name.len() == 0 {
                Err(ParseErrorKind::MissingSectionName)
            } else {
                Ok(name)
            }
        },
    }
}

/// Name and inline command of the task header `t`.
pub open spec fn task_parts(t: Seq<char>) -> Result<(Seq<char>, Seq<char>), ParseErrorKind> {
    match split_first(t, ':') {
        None => Err(ParseErrorKind::InvalidTask),
        Some((left, right)) => Ok((trimmed(left), trimmed(right))),
    }
}

/// The commands of a multi-line task whose body starts at line `i`, and the
/// number of lines that the body takes. Skipped lines are passed over; a line
/// that ends in `;` is the last command, without its `;`; so is the last line
/// of the file.
pub open spec fn collect(lines: Seq<Seq<char>>, i: int) -> (Seq<Seq<char>>, nat)
    decreases lines.len() - i,
{
    if i < 0 || i >= lines.len() {
        (Seq::empty(), 0)
    } else {
        let t = trimmed(lines[i]);
        if is_skipped(t) {
            (collect(lines, i + 1).0, collect(lines, i + 1).1 + 1)
        } else if t.last() == ';' {
            (seq![trimmed(strip_end(t, CharClass::Only(';')))], 1)
        } else {
            (seq![t] + collect(lines, i + 1).0, collect(lines, i + 1).1 + 1)
        }
    }
}

/// How many of the `n` lines from line `from` on are not skipped.
pub open spec fn count_kept(lines: Seq<Seq<char>>, from: int, n: nat) -> nat
    decreases n,
{
    if n == 0 || from < 0 || from >= lines.len() {
        0
    } else if is_skipped(trimmed(lines[from])) {
        count_kept(lines, from + 1, (n - 1) as nat)
    } else {
        1 + count_kept(lines, from + 1, (n - 1) as nat)
    }
}

/// A body ends inside the file, takes a line where there is one, and holds
/// one command for each of its lines that is not skipped.
pub proof fn lemma_collect(lines: Seq<Seq<char>>, i: int)
    requires
        0 <= i <= lines.len(),
    ensures
        i + collect(lines, i).1 <= lines.len(),
        i < lines.len() ==> collect(lines, i).1 >= 1,
        collect(lines, i).0.len() == count_kept(lines, i, collect(lines, i).1),
    decreases lines.len() - i,
{
    if i < lines.len() {
        let t = trimmed(lines[i]);
        if is_skipped(t) || t.last() != ';' {
            lemma_collect(lines, i + 1);
        } else {
            assert(count_kept(lines, i + 1, 0) == 0);
        }
    }
}

/// A body that a line ending in `;` closes: it reaches up to that line, which
/// is its last command, without the `;`.
pub proof fn lemma_collect_closed(lines: Seq<Seq<char>>, i: int, end: int)
    requires
        0 <= i <= end < lines.len(),
        forall|j: int|
            i <= j < end ==> is_skipped(trimmed(#[trigger] lines[j])) || trimmed(lines[j]).last()
                != ';',
        !is_skipped(trimmed(lines[end])),
        trimmed(lines[end]).last() == ';',
    ensures
        i + collect(lines, i).1 == end + 1,
        collect(lines, i).0.len() == count_kept(lines, i, collect(lines, i).1),
        collect(lines, i).0.len() > 0,
        collect(lines, i).0.last() == trimmed(strip_end(trimmed(lines[end]), CharClass::Only(';'))),
    decreases end - i,
{
    lemma_collect(lines, i);
    if i < end {
        lemma_collect_closed(lines, i + 1, end);
        let rest = collect(lines, i + 1).0;
        if !is_skipped(trimmed(lines[i])) {
            assert((seq![trimmed(lines[i])] + rest).last() == rest.last());
        }
    }
}

/// The trimmed texts of those of the `n` lines from line `from` on that are
/// not skipped, in order.
pub open spec fn kept(lines: Seq<Seq<char>>, from: int, n: nat) -> Seq<Seq<char>>
    decreases n,
{
    if n == 0 || from < 0 || from >= lines.len() {
        Seq::empty()
    } else if is_skipped(trimmed(lines[from])) {
        kept(lines, from + 1, (n - 1) as nat)
    } else {
        seq![trimmed(lines[from])] + kept(lines, from + 1, (n - 1) as nat)
    }
}

/// The commands of a body that line `end` closes with a `;`, one by one:
/// each line before `end` that is not skipped, trimmed and in the order of
/// the file, and then line `end` without its `;`.
pub proof fn lemma_collect_elements(lines: Seq<Seq<char>>, i: int, end: int)
    requires
        0 <= i <= end < lines.len(),
        forall|j: int|
            i <= j < end ==> is_skipped(trimmed(#[trigger] lines[j])) || trimmed(lines[j]).last()
                != ';',
        !is_skipped(trimmed(lines[end])),
        trimmed(lines[end]).last() == ';',
    ensures
        collect(lines, i).0 == kept(lines, i, (end - i) as nat).push(
            trimmed(strip_end(trimmed(lines[end]), CharClass::Only(';'))),
        ),
    decreases end - i,
{
    let last = trimmed(strip_end(trimmed(lines[end]), CharClass::Only(';')));
    if i < end {
        lemma_collect_elements(lines, i + 1, end);
        let rest = kept(lines, i + 1, (end - i - 1) as nat);
        if !is_skipped(trimmed(lines[i])) {
            assert(seq![trimmed(lines[i])] + rest.push(last) == (seq![trimmed(lines[i])] + rest).push(
                last,
            ));
        }
    } else {
        assert(kept(lines, i, 0).push(last) == seq![last]);
    }
}

/// A line made of `name`, a colon and `command`, where `name` holds no colon,
/// has the trimmed `name` and the trimmed `command` for its parts, however
/// much whitespace surrounds either.
pub proof fn lemma_task_line_parts(name: Seq<char>, command: Seq<char>)
    requires
        !name.contains(':'),
    ensures
        task_parts(trimmed(name + seq![':'] + command)) == Ok::<_, ParseErrorKind>(
            (trimmed(name), trimmed(command)),
        ),
{
    lemma_separated_parts(name, ':', command);
}

/// A line made of a dot, `key`, an equal sign and `value`, where `key` holds
/// no equal sign and does not begin with a dot, is a variable line with the
/// trimmed `key` for its key and the trimmed `value` for its value, or
/// without a value where that is empty.
pub proof fn lemma_var_line_parts(key: Seq<char>, value: Seq<char>)
    requires
        !key.contains('='),
        key.len() == 0 || key[0] != '.',
    ensures
        line_kind(trimmed(seq!['.'] + key + seq!['='] + value)) == LineKind::Variable,
        var_parts(trimmed(seq!['.'] + key + seq!['='] + value)) == if trimmed(value).len() == 0 {
            Err::<(Seq<char>, Seq<char>), _>(ParseErrorKind::MissingValue)
        } else {
            Ok((trimmed(key), trimmed(value)))
        },
{
    let left = seq!['.'] + key;
    let t = trimmed(left + seq!['='] + value);
    assert forall|j: int| 0 <= j < left.len() implies left[j] != '=' by {
        if j > 0 {
            assert(key.contains(key[j - 1]));
        }
    }
    lemma_separated_parts(left, '=', value);
    lemma_leading(left, CharClass::Space, 0);
    let l = (split_first(t, '=')->0).0;
    assert(l == left.subrange(0, left.len() as int));
    assert(l == left);
    lemma_first_index(t, '=');
    assert(l == t.subrange(0, first_index(t, '=')));
    assert(t[0] == l[0]);
    lemma_leading(left, CharClass::Only('.'), 1);
    assert(strip_start(left, CharClass::Only('.')) == key);
}

/// The two sides of the trimmed text `left`, `c`, `right`, where `c` is no
/// whitespace and `left` holds none of it: trimmed, they are the trimmed
/// `left` and the trimmed `right`.
pub proof fn lemma_separated_parts(left: Seq<char>, c: char, right: Seq<char>)
    requires
        !left.contains(c),
        !is_space(c),
    ensures
        split_first(trimmed(left + seq![c] + right), c) is Some,
        (split_first(trimmed(left + seq![c] + right), c)->0).0 == strip_start(left, CharClass::Space),
        trimmed((split_first(trimmed(left + seq![c] + right), c)->0).0) == trimmed(left),
        trimmed((split_first(trimmed(left + seq![c] + right), c)->0).1) == trimmed(right),
{
    let line = left + seq![c] + right;
    let n = left.len() as int;
    lemma_trim_bounds(left);
    lemma_trim_bounds(right);
    let (al, bl) = (trim_from(left), trim_to(left));
    let (ar, br) = (trim_from(right), trim_to(right));
    let a = if al < bl {
        al
    } else {
        n
    };
    let b = if ar < br {
        n + 1 + br
    } else {
        n + 1
    };
    assert(line[n] == c);
    assert forall|j: int| 0 <= j < a implies is_space(#[trigger] line[j]) by {
        assert(line[j] == left[j]);
    }
    assert forall|j: int| b <= j < line.len() implies is_space(#[trigger] line[j]) by {
        assert(line[j] == right[j - n - 1]);
    }
    if al < bl {
        assert(line[a] == left[al]);
    }
    if ar < br {
        assert(line[b - 1] == right[br - 1]);
    }
    assert(is_trim_window(line, a, b));
    lemma_trimmed_window(line, a, b);
    let t = line.subrange(a, b);
    assert forall|j: int| 0 <= j < n - a implies CharClass::Except(c).holds(#[trigger] t[j]) by {
        assert(t[j] == left[a + j]);
        assert(left.contains(left[a + j]));
    }
    assert(t[n - a] == c);
    lemma_leading(t, CharClass::Except(c), n - a);
    let l = t.subrange(0, n - a);
    let r = t.subrange(n - a + 1, t.len() as int);
    assert(split_first(t, c) == Some((l, r)));
    if al < bl {
        assert(l == left.subrange(al, n));
    } else {
        lemma_leading_bounds(left, CharClass::Space);
        if al < n {
            assert(is_space(left[al]));
        }
        assert(l == left.subrange(n, n));
    }
    assert(l == strip_start(left, CharClass::Space));
    if al < bl {
        assert forall|j: int| bl - al <= j < l.len() implies is_space(#[trigger] l[j]) by {
            assert(l[j] == left[al + j]);
        }
        assert(l[0] == left[al]);
        assert(l[bl - al - 1] == left[bl - 1]);
        assert(is_trim_window(l, 0, bl - al));
        lemma_trimmed_window(l, 0, bl - al);
        assert(l.subrange(0, bl - al) == left.subrange(al, bl));
    } else {
        assert(l.len() == 0);
        assert(is_trim_window(l, 0, 0));
        lemma_trimmed_window(l, 0, 0);
        assert(l.subrange(0, 0) == left.subrange(al, bl));
    }
    if ar < br {
        assert(r.len() == br);
        assert forall|j: int| 0 <= j < ar implies is_space(#[trigger] r[j]) by {
            assert(r[j] == right[j]);
        }
        assert(r[ar] == right[ar]);
        assert(r[br - 1] == right[br - 1]);
        assert(is_trim_window(r, ar, br));
        lemma_trimmed_window(r, ar, br);
        assert(r.subrange(ar, br) == right.subrange(ar, br));
    } else {
        assert(r.len() == 0);
        assert(is_trim_window(r, 0, 0));
        lemma_trimmed_window(r, 0, 0);
        assert(r.subrange(0, 0) == right.subrange(ar, br));
    }
}

/// Classifies a trimmed line.
pub fn classify(t: &str) -> (kind: LineKind)
    ensures
        kind == line_kind(t@),
{
    let cs = chars_of(t);
    if cs.len() == 0 {
        LineKind::Blank
    } else if cs[0] == '#' {
        LineKind::Comment
    } else if cs[0] == '.' {
        LineKind::Variable
    } else if has_char(t, '=') {
        LineKind::Section
    } else if has_char(t, ':') {
        LineKind::Task
    } else {
        LineKind::Invalid
    }
}

/// Reads key and value off a variable line.
pub fn read_var(t: &str) -> (r: Result<(String, String), ParseErrorKind>)
    ensures
        match r {
            Ok((key, value)) => var_parts(t@) == Ok::<_, ParseErrorKind>((key@, value@)),
            Err(kind) => var_parts(t@) == Err::<(Seq<char>, Seq<char>), _>(kind),
        },
{
    match split_first_str(t, '=') {
        None => Err(ParseErrorKind::InvalidVariable),
        Some((left, right)) => {
            let value = trim_str(right);
            if value.unicode_len() == 0 {
                Err(ParseErrorKind::MissingValue)
            } else {
                let key = trim_str(strip_start_str(left, CharClass::Only('.')));
                Ok((String::from_str(key), String::from_str(value)))
            }
        },
    }
}

/// The key of the variable line `t`, whether it has a value or not.
pub open spec fn var_key(t: Seq<char>) -> Option<Seq<char>> {
    match split_first(t, '=') {
        None => None,
        Some((left, _)) => Some(trimmed(strip_start(left, CharClass::Only('.')))),
    }
}

/// Reads the key off a variable line, for a diagnostic.
pub fn read_var_key(t: &str) -> (r: Option<String>)
    ensures
        match r {
            Some(key) => var_key(t@) == Some(key@),
            None => var_key(t@) is None,
        },
{
    match split_first_str(t, '=') {
        None => None,
        Some((left, _)) => Some(
            String::from_str(trim_str(strip_start_str(left, CharClass::Only('.')))),
        ),
    }
}

/// Reads the name off a section line.
pub fn read_section(t: &str) -> (r: Result<String, ParseErrorKind>)
    ensures
        match r {
            Ok(name) => section_name(t@) == Ok::<_, ParseErrorKind>(name@),
            Err(kind) => section_name(t@) == Err::<Seq<char>, _>(kind),
        },
{
    match split_first_str(t, '=') {
        None => Err(ParseErrorKind::InvalidSection),
        Some((_, right)) => {
            let name = strip_str(trim_str(right), CharClass::Only('"'));
            if name.unicode_len() == 0 {
                Err(ParseErrorKind::MissingSectionName)
            } else {
                Ok(String::from_str(name))
            }
        },
    }
}

/// Reads name and inline command off a task header.
pub fn read_task(t: &str) -> (r: Result<(String, String), ParseErrorKind>)
    ensures
        match r {
            Ok((name, command)) => task_parts(t@) == Ok::<_, ParseErrorKind>((name@, command@)),
            Err(kind) => task_parts(t@) == Err::<(Seq<char>, Seq<char>), _>(kind),
        },
{
    match split_first_str(t, ':') {
        None => Err(ParseErrorKind::InvalidTask),
        Some((left, right)) => Ok(
            (String::from_str(trim_str(left)), String::from_str(trim_str(right))),
        ),
    }
}

} // verus!
