//! Character and string primitives the taskfile grammar is built from.

use vstd::prelude::*;
use vstd::std_specs::iter::IteratorSpec;
use vstd::string::*;

verus! {

/// Whether `c` counts as whitespace: the Unicode `White_Space` code points.
pub open spec fn is_space(c: char) -> bool {
    let n = c as u32;
    (0x09 <= n && n <= 0x0D) || n == 0x20 || n == 0x85 || n == 0xA0 || n == 0x1680
        || (0x2000 <= n && n <= 0x200A) || n == 0x2028 || n == 0x2029 || n == 0x202F
        || n == 0x205F || n == 0x3000
}

/// Executable test for [`is_space`].
pub fn is_space_char(c: char) -> (b: bool)
    ensures
        b == is_space(c),
{
    c == ' ' || ('\u{09}' <= c && c <= '\u{0D}') || c == '\u{85}' || c == '\u{A0}'
        || c == '\u{1680}' || ('\u{2000}' <= c && c <= '\u{200A}') || c == '\u{2028}'
        || c == '\u{2029}' || c == '\u{202F}' || c == '\u{205F}' || c == '\u{3000}'
}

/// Whether `c` has the Unicode property `Uppercase`: what `char::is_uppercase`
/// answers for it.
pub uninterp spec fn is_uppercase(c: char) -> bool;

/// Calls `char::is_uppercase`. Nothing is proved of the answer; it is taken
/// to depend on the character alone and goes by the name [`is_uppercase`].
#[verifier::external_body]
pub(crate) fn char_is_uppercase(c: char) -> (b: bool)
    ensures
        b == is_uppercase(c),
{
    c.is_uppercase()
}

/// Whether every character of `s` is uppercase; true of the empty text.
pub open spec fn all_uppercase(s: Seq<char>) -> bool {
    forall|i: int| 0 <= i < s.len() ==> is_uppercase(#[trigger] s[i])
}

/// Executable test for [`all_uppercase`].
pub fn is_all_uppercase(s: &str) -> (b: bool)
    ensures
        b == all_uppercase(s@),
{
    let cs = chars_of(s);
    let mut i: usize = 0;
    while i < cs.len()
        invariant
            cs@ == s@,
            i <= cs.len(),
            forall|j: int| 0 <= j < i ==> is_uppercase(#[trigger] s@[j]),
        decreases cs.len() - i,
    {
        if !char_is_uppercase(cs[i]) {
            return false;
        }
        i += 1;
    }
    true
}

/// The characters of `s`, in order.
pub fn chars_of(s: &str) -> (v: Vec<char>)
    ensures
        v@ == s@,
{
    let mut v: Vec<char> = Vec::new();
    for c in it: s.chars()
        invariant
            it.seq() == s@,
            v@ == it.seq().take(it.index() as int),
    {
        v.push(c);
    }
    v
}

/// A set of characters that stripping works with.
#[derive(Clone, Copy, Debug)]
pub enum CharClass {
    /// Every whitespace character.
    Space,
    /// The one given character.
    Only(char),
    /// Every character but the given one.
    Except(char),
}

impl CharClass {
    /// Whether `c` belongs to the class.
    pub open spec fn holds(self, c: char) -> bool {
        match self {
            CharClass::Space => is_space(c),
            CharClass::Only(x) => c == x,
            CharClass::Except(x) => c != x,
        }
    }

    /// Executable test for [`CharClass::holds`].
    pub fn has(&self, c: char) -> (b: bool)
        ensures
            b == self.holds(c),
    {
        match self {
            CharClass::Space => is_space_char(c),
            CharClass::Only(x) => c == *x,
            CharClass::Except(x) => c != *x,
        }
    }
}

/// How many characters at the front of `s` belong to `class`.
pub open spec fn leading(s: Seq<char>, class: CharClass) -> int
    decreases s.len(),
{
    if s.len() > 0 && class.holds(s[0]) {
        1 + leading(s.drop_first(), class)
    } else {
        0
    }
}

/// How many characters at the back of `s` belong to `class`.
pub open spec fn trailing(s: Seq<char>, class: CharClass) -> int
    decreases s.len(),
{
    if s.len() > 0 && class.holds(s.last()) {
        1 + trailing(s.drop_last(), class)
    } else {
        0
    }
}

/// `s` without its leading characters of `class`.
pub open spec fn strip_start(s: Seq<char>, class: CharClass) -> Seq<char> {
    s.subrange(leading(s, class), s.len() as int)
}

/// `s` without its trailing characters of `class`.
pub open spec fn strip_end(s: Seq<char>, class: CharClass) -> Seq<char> {
    s.subrange(0, s.len() - trailing(s, class))
}

/// `s` without the characters of `class` at either end.
pub open spec fn strip(s: Seq<char>, class: CharClass) -> Seq<char> {
    strip_end(strip_start(s, class), class)
}

/// `s` without the whitespace at either end.
pub open spec fn trimmed(s: Seq<char>) -> Seq<char> {
    strip(s, CharClass::Space)
}

/// The position of the first `c` in `s`, or the length of `s` where it has none.
pub open spec fn first_index(s: Seq<char>, c: char) -> int {
    leading(s, CharClass::Except(c))
}

/// The parts of `s` before and after its first `c`, if it has one.
pub open spec fn split_first(s: Seq<char>, c: char) -> Option<(Seq<char>, Seq<char>)> {
    let k = first_index(s, c);
    if k < s.len() {
        Some((s.subrange(0, k), s.subrange(k + 1, s.len() as int)))
    } else {
        None
    }
}

/// `s` with every `c` replaced by the text `with`.
pub open spec fn replaced(s: Seq<char>, c: char, with: Seq<char>) -> Seq<char>
    decreases s.len(),
{
    if s.len() == 0 {
        s
    } else if s.last() == c {
        replaced(s.drop_last(), c, with) + with
    } else {
        replaced(s.drop_last(), c, with).push(s.last())
    }
}

/// `leading` is the one position up to which all belong to the class and at
/// which the next does not.
pub proof fn lemma_leading(s: Seq<char>, class: CharClass, k: int)
    requires
        0 <= k <= s.len(),
        forall|j: int| 0 <= j < k ==> class.holds(#[trigger] s[j]),
        k < s.len() ==> !class.holds(s[k]),
    ensures
        leading(s, class) == k,
    decreases k,
{
    if k > 0 {
        lemma_leading(s.drop_first(), class, k - 1);
    }
}

/// The counterpart of [`lemma_leading`] for the back of `s`.
pub proof fn lemma_trailing(s: Seq<char>, class: CharClass, k: int)
    requires
        0 <= k <= s.len(),
        forall|j: int| s.len() - k <= j < s.len() ==> class.holds(#[trigger] s[j]),
        k < s.len() ==> !class.holds(s[s.len() - k - 1]),
    ensures
        trailing(s, class) == k,
    decreases k,
{
    if k > 0 {
        lemma_trailing(s.drop_last(), class, k - 1);
    }
}

/// What `leading` counts: it stays within `s`, all before it belong to the
/// class, and the character at it does not.
pub proof fn lemma_leading_bounds(s: Seq<char>, class: CharClass)
    ensures
        0 <= leading(s, class) <= s.len(),
        forall|j: int| 0 <= j < leading(s, class) ==> class.holds(#[trigger] s[j]),
        leading(s, class) < s.len() ==> !class.holds(s[leading(s, class)]),
    decreases s.len(),
{
    if s.len() > 0 && class.holds(s[0]) {
        let t = s.drop_first();
        lemma_leading_bounds(t, class);
        assert forall|j: int| 0 <= j < leading(s, class) implies class.holds(#[trigger] s[j]) by {
            if j > 0 {
                assert(s[j] == t[j - 1]);
            }
        }
    }
}

/// The counterpart of [`lemma_leading_bounds`] for the back of `s`.
pub proof fn lemma_trailing_bounds(s: Seq<char>, class: CharClass)
    ensures
        0 <= trailing(s, class) <= s.len(),
        forall|j: int| s.len() - trailing(s, class) <= j < s.len() ==> class.holds(#[trigger] s[j]),
        trailing(s, class) < s.len() ==> !class.holds(s[s.len() - trailing(s, class) - 1]),
    decreases s.len(),
{
    if s.len() > 0 && class.holds(s.last()) {
        let t = s.drop_last();
        lemma_trailing_bounds(t, class);
        assert forall|j: int| s.len() - trailing(s, class) <= j < s.len() implies class.holds(
            #[trigger] s[j],
        ) by {
            if j < t.len() {
                assert(s[j] == t[j]);
            }
        }
        if trailing(s, class) < s.len() {
            assert(s[s.len() - trailing(s, class) - 1] == t[t.len() - trailing(t, class) - 1]);
        }
    }
}

/// Where the part of `s` that trimming keeps begins.
pub open spec fn trim_from(s: Seq<char>) -> int {
    leading(s, CharClass::Space)
}

/// Where the part of `s` that trimming keeps ends.
pub open spec fn trim_to(s: Seq<char>) -> int {
    s.len() - trailing(strip_start(s, CharClass::Space), CharClass::Space)
}

/// Whether trimming `s` keeps the part from `a` up to `b`: whitespace alone
/// lies outside, and the part begins and ends with something else, or is
/// empty.
pub open spec fn is_trim_window(s: Seq<char>, a: int, b: int) -> bool {
    &&& 0 <= a <= b <= s.len()
    &&& forall|j: int| 0 <= j < a ==> is_space(#[trigger] s[j])
    &&& forall|j: int| b <= j < s.len() ==> is_space(#[trigger] s[j])
    &&& a < b ==> !is_space(s[a]) && !is_space(s[b - 1])
}

/// Trimming keeps the window of `s`.
pub proof fn lemma_trimmed_window(s: Seq<char>, a: int, b: int)
    requires
        is_trim_window(s, a, b),
    ensures
        trimmed(s) == s.subrange(a, b),
{
    let class = CharClass::Space;
    if a < b {
        lemma_leading(s, class, a);
        let u = s.subrange(a, s.len() as int);
        assert forall|j: int| u.len() - (s.len() - b) <= j < u.len() implies class.holds(
            #[trigger] u[j],
        ) by {
            assert(u[j] == s[a + j]);
        }
        assert(u[u.len() - (s.len() - b) - 1] == s[b - 1]);
        lemma_trailing(u, class, s.len() - b);
        assert(u.subrange(0, u.len() - (s.len() - b)) == s.subrange(a, b));
    } else {
        assert forall|j: int| 0 <= j < s.len() implies class.holds(#[trigger] s[j]) by {}
        lemma_leading(s, class, s.len() as int);
        let u = s.subrange(s.len() as int, s.len() as int);
        assert(u.len() == 0);
        assert(u.subrange(0, 0) == s.subrange(a, b));
    }
}

/// Every text has its window, from [`trim_from`] up to [`trim_to`].
pub proof fn lemma_trim_bounds(s: Seq<char>)
    ensures
        is_trim_window(s, trim_from(s), trim_to(s)),
        trimmed(s) == s.subrange(trim_from(s), trim_to(s)),
{
    let class = CharClass::Space;
    let a = trim_from(s);
    lemma_leading_bounds(s, class);
    let u = s.subrange(a, s.len() as int);
    lemma_trailing_bounds(u, class);
    let b = trim_to(s);
    assert forall|j: int| 0 <= j < a implies is_space(#[trigger] s[j]) by {
        assert(class.holds(s[j]));
    }
    assert forall|j: int| b <= j < s.len() implies is_space(#[trigger] s[j]) by {
        assert(s[j] == u[j - a]);
        assert(class.holds(u[j - a]));
    }
    if a < b {
        assert(!class.holds(s[a]));
        assert(u[u.len() - trailing(u, class) - 1] == s[b - 1]);
    }
    lemma_trimmed_window(s, a, b);
}

/// `s` has a `c` exactly where [`first_index`] stops short of its end.
pub proof fn lemma_first_index(s: Seq<char>, c: char)
    ensures
        0 <= first_index(s, c) <= s.len(),
        s.contains(c) <==> first_index(s, c) < s.len(),
        first_index(s, c) < s.len() ==> s[first_index(s, c)] == c,
        forall|j: int| 0 <= j < first_index(s, c) ==> #[trigger] s[j] != c,
{
    lemma_leading_bounds(s, CharClass::Except(c));
    let k = first_index(s, c);
    assert forall|j: int| 0 <= j < k implies #[trigger] s[j] != c by {
        assert(CharClass::Except(c).holds(s[j]));
    }
    if k < s.len() {
        assert(s[k] == c);
    }
}

/// Counts the characters of `class` at the front of `cs`.
pub fn count_leading(cs: &Vec<char>, class: CharClass) -> (k: usize)
    ensures
        k == leading(cs@, class),
        k <= cs.len(),
{
    let mut k: usize = 0;
    while k < cs.len() && class.has(cs[k])
        invariant
            k <= cs.len(),
            forall|j: int| 0 <= j < k ==> class.holds(#[trigger] cs@[j]),
        decreases cs.len() - k,
    {
        k += 1;
    }
    proof {
        lemma_leading(cs@, class, k as int);
    }
    k
}

/// Counts the characters of `class` at the back of `cs`.
pub fn count_trailing(cs: &Vec<char>, class: CharClass) -> (k: usize)
    ensures
        k == trailing(cs@, class),
        k <= cs.len(),
{
    let n: usize = cs.len();
    let mut k: usize = 0;
    while k < n && class.has(cs[n - k - 1])
        invariant
            n == cs.len(),
            k <= n,
            forall|j: int| n - k <= j < n ==> class.holds(#[trigger] cs@[j]),
        decreases n - k,
    {
        k += 1;
    }
    proof {
        lemma_trailing(cs@, class, k as int);
    }
    k
}

/// Strips the characters of `class` from both ends of `s`.
pub fn strip_str<'a>(s: &'a str, class: CharClass) -> (r: &'a str)
    ensures
        r@ == strip(s@, class),
{
    let cs = chars_of(s);
    let a: usize = count_leading(&cs, class);
    let front = s.substring_char(a, cs.len());
    let fs = chars_of(front);
    let b: usize = count_trailing(&fs, class);
    front.substring_char(0, fs.len() - b)
}

/// Strips the characters of `class` from the front of `s`.
pub fn strip_start_str<'a>(s: &'a str, class: CharClass) -> (r: &'a str)
    ensures
        r@ == strip_start(s@, class),
{
    let cs = chars_of(s);
    let a: usize = count_leading(&cs, class);
    s.substring_char(a, cs.len())
}

/// Strips the characters of `class` from the back of `s`.
pub fn strip_end_str<'a>(s: &'a str, class: CharClass) -> (r: &'a str)
    ensures
        r@ == strip_end(s@, class),
{
    let cs = chars_of(s);
    let b: usize = count_trailing(&cs, class);
    s.substring_char(0, cs.len() - b)
}

/// Strips whitespace from both ends of `s`.
pub fn trim_str<'a>(s: &'a str) -> (r: &'a str)
    ensures
        r@ == trimmed(s@),
{
    strip_str(s, CharClass::Space)
}

/// Whether `s` holds the character `c`.
pub fn has_char(s: &str, c: char) -> (b: bool)
    ensures
        b == s@.contains(c),
{
    let cs = chars_of(s);
    let k: usize = count_leading(&cs, CharClass::Except(c));
    proof {
        lemma_first_index(s@, c);
    }
    k < cs.len()
}

/// Whether `s` begins with the character `c`.
pub fn starts_with_char(s: &str, c: char) -> (b: bool)
    ensures
        b == (s@.len() > 0 && s@[0] == c),
{
    let n: usize = s.unicode_len();
    n > 0 && s.get_char(0) == c
}

/// Whether `s` ends with the character `c`.
pub fn ends_with_char(s: &str, c: char) -> (b: bool)
    ensures
        b == (s@.len() > 0 && s@.last() == c),
{
    let cs = chars_of(s);
    cs.len() > 0 && cs[cs.len() - 1] == c
}

/// Splits `s` at its first `c`, which goes to neither part.
pub fn split_first_str<'a>(s: &'a str, c: char) -> (r: Option<(&'a str, &'a str)>)
    ensures
        match r {
            Some((a, b)) => split_first(s@, c) == Some((a@, b@)),
            None => split_first(s@, c) is None,
        },
{
    let cs = chars_of(s);
    let k: usize = count_leading(&cs, CharClass::Except(c));
    if k < cs.len() {
        Some((s.substring_char(0, k), s.substring_char(k + 1, cs.len())))
    } else {
        None
    }
}

/// Replaces every `c` in `s` by the text `with`.
pub fn replace_char(s: &str, c: char, with: &str) -> (r: String)
    ensures
        r@ == replaced(s@, c, with@),
{
    let cs = chars_of(s);
    let n: usize = cs.len();
    let mut out = String::new();
    let mut start: usize = 0;
    let mut i: usize = 0;
    while i < n
        invariant
            cs@ == s@,
            n == cs.len(),
            start <= i <= n,
            out@ + s@.subrange(start as int, i as int) == replaced(s@.subrange(0, i as int), c, with@),
        decreases n - i,
    {
        proof {
            assert(s@.subrange(0, i + 1).drop_last() == s@.subrange(0, i as int));
            assert(s@.subrange(0, i + 1).last() == s@[i as int]);
        }
        if cs[i] == c {
            out.append(s.substring_char(start, i));
            out.append(with);
            start = i + 1;
            proof {
                assert(s@.subrange(start as int, i + 1) == Seq::<char>::empty());
                assert(out@ + Seq::<char>::empty() == out@);
            }
        } else {
            proof {
                assert(s@.subrange(start as int, i + 1) == s@.subrange(start as int, i as int).push(
                    s@[i as int],
                ));
                assert(out@ + s@.subrange(start as int, i as int).push(s@[i as int]) == (out@
                    + s@.subrange(start as int, i as int)).push(s@[i as int]));
            }
        }
        i += 1;
    }
    out.append(s.substring_char(start, n));
    proof {
        assert(s@.subrange(0, n as int) == s@);
    }
    out
}

/// `s` without a carriage return at its end.
pub open spec fn chomp(s: Seq<char>) -> Seq<char> {
    if s.len() > 0 && s.last() == '\r' {
        s.drop_last()
    } else {
        s
    }
}

/// The lines of `s`. A line ends at a line feed, or at a carriage return and a
/// line feed; neither belongs to the line. What follows the last line feed is
/// a line as it stands, unless nothing follows it.
pub open spec fn lines_of(s: Seq<char>) -> Seq<Seq<char>>
    decreases s.len(),
{
    let k = first_index(s, '\n');
    if s.len() == 0 {
        Seq::empty()
    } else if 0 <= k < s.len() {
        seq![chomp(s.subrange(0, k))] + lines_of(s.subrange(k + 1, s.len() as int))
    } else {
        seq![s]
    }
}

/// The texts of a list of strings.
pub open spec fn texts_of(v: Seq<String>) -> Seq<Seq<char>> {
    Seq::new(v.len(), |i: int| v[i]@)
}

/// Splits `content` into its lines.
pub fn split_lines(content: &str) -> (out: Vec<String>)
    ensures
        texts_of(out@) == lines_of(content@),
{
    let cs = chars_of(content);
    let n: usize = cs.len();
    let mut out: Vec<String> = Vec::new();
    let mut start: usize = 0;
    assert(content@.subrange(0, n as int) == content@);
    assert(texts_of(out@) + lines_of(content@) == lines_of(content@));
    while start < n
        invariant
            cs@ == content@,
            n == cs.len(),
            start <= n,
            lines_of(content@) == texts_of(out@) + lines_of(content@.subrange(start as int, n as int)),
        decreases n - start,
    {
        let ghost rest = content@.subrange(start as int, n as int);
        let ghost before = texts_of(out@);
        let mut i: usize = start;
        while i < n && cs[i] != '\n'
            invariant
                cs@ == content@,
                n == cs.len(),
                start <= i <= n,
                forall|j: int| start <= j < i ==> cs@[j] != '\n',
            decreases n - i,
        {
            i += 1;
        }
        proof {
            assert forall|j: int| 0 <= j < i - start implies CharClass::Except('\n').holds(
                #[trigger] rest[j],
            ) by {
                assert(rest[j] == cs@[start + j]);
            }
            lemma_leading(rest, CharClass::Except('\n'), i - start);
        }
        if i < n {
            let end: usize = if i > start && cs[i - 1] == '\r' {
                i - 1
            } else {
                i
            };
            let line = String::from_str(content.substring_char(start, end));
            out.push(line);
            proof {
                let piece = rest.subrange(0, i - start);
                assert(piece == content@.subrange(start as int, i as int));
                assert(chomp(piece) == content@.subrange(start as int, end as int));
                assert(rest.subrange(i - start + 1, rest.len() as int) == content@.subrange(
                    i + 1,
                    n as int,
                ));
                assert(texts_of(out@) == before.push(chomp(piece)));
                assert(before.push(chomp(piece)) + lines_of(content@.subrange(i + 1, n as int))
                    == before + (seq![chomp(piece)] + lines_of(
                    content@.subrange(i + 1, n as int),
                )));
            }
            start = i + 1;
        } else {
            let line = String::from_str(content.substring_char(start, n));
            out.push(line);
            proof {
                assert(texts_of(out@) == before.push(rest));
                assert(content@.subrange(n as int, n as int).len() == 0);
                assert(before.push(rest) + Seq::<Seq<char>>::empty() == before + seq![rest]);
            }
            start = n;
        }
    }
    proof {
        assert(content@.subrange(n as int, n as int).len() == 0);
        assert(texts_of(out@) + Seq::<Seq<char>>::empty() == texts_of(out@));
    }
    out
}

/// Where `with` has no `c`, the replaced text has none either.
pub proof fn lemma_replaced_clears(s: Seq<char>, c: char, with: Seq<char>)
    requires
        !with.contains(c),
    ensures
        !replaced(s, c, with).contains(c),
    decreases s.len(),
{
    if s.len() > 0 {
        lemma_replaced_clears(s.drop_last(), c, with);
        let r = replaced(s.drop_last(), c, with);
        let full = replaced(s, c, with);
        assert forall|i: int| 0 <= i < full.len() implies full[i] != c by {
            if i < r.len() {
                assert(r.contains(full[i]));
            } else if s.last() == c {
                assert(with.contains(full[i])) by {
                    assert(full[i] == with[i - r.len()]);
                }
            }
        }
    }
}

} // verus!
