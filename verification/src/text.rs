//! Characters and strings: trimming, lines, words, searching and joining.
//!
//! Strings are processed as sequences of characters. A `&str` is decoded once
//! with [`chars_of`], worked on as a `[char]` slice, and put together again
//! with [`string_of`].

use vstd::prelude::*;
use vstd::slice::slice_subrange;

verus! {

/// `String::push` appends one character to the string.
pub assume_specification[ String::push ](s: &mut String, c: char)
    ensures
        final(s)@ == old(s)@.push(c),
;

/// `String::push_str` appends a string slice to the string.
pub assume_specification[ String::push_str ](s: &mut String, t: &str)
    ensures
        final(s)@ == old(s)@ + t@,
;

/// The characters with the Unicode property `White_Space`.
pub open spec fn white_space(c: char) -> bool {
    ||| '\u{9}' <= c && c <= '\u{D}'
    ||| c == ' '
    ||| c == '\u{85}'
    ||| c == '\u{A0}'
    ||| c == '\u{1680}'
    ||| '\u{2000}' <= c && c <= '\u{200A}'
    ||| c == '\u{2028}'
    ||| c == '\u{2029}'
    ||| c == '\u{202F}'
    ||| c == '\u{205F}'
    ||| c == '\u{3000}'
}

pub fn is_whitespace(c: char) -> (r: bool)
    ensures
        r == white_space(c),
{
    ('\u{9}' <= c && c <= '\u{D}') || c == ' ' || c == '\u{85}' || c == '\u{A0}' || c == '\u{1680}'
        || ('\u{2000}' <= c && c <= '\u{200A}') || c == '\u{2028}' || c == '\u{2029}' || c
        == '\u{202F}' || c == '\u{205F}' || c == '\u{3000}'
}

/// The characters of a string.
pub fn chars_of(s: &str) -> (r: Vec<char>)
    ensures
        r@ == s@,
{
    let mut out: Vec<char> = Vec::new();
    for c in it: s.chars()
        invariant
            it.seq() == s@,
            out@ == s@.take(it.index()),
    {
        out.push(c);
    }
    out
}

/// The string of the given characters.
pub fn string_of(s: &[char]) -> (r: String)
    ensures
        r@ == s@,
{
    let mut out = String::new();
    for i in 0..s.len()
        invariant
            out@ == s@.take(i as int),
    {
        out.push(s[i]);
    }
    out
}

/// Whether two strings hold the same characters.
pub fn same_text(a: &str, b: &str) -> (r: bool)
    ensures
        r == (a@ == b@),
{
    let mut left = a.chars();
    let mut right = b.chars();
    let ghost mut done: nat = 0;
    loop
        invariant
            done <= a@.len(),
            done <= b@.len(),
            vstd::std_specs::iter::IteratorSpec::obeys_prophetic_iter_laws(&left),
            vstd::std_specs::iter::IteratorSpec::obeys_prophetic_iter_laws(&right),
            vstd::std_specs::iter::IteratorSpec::remaining(&left) == a@.skip(done as int),
            vstd::std_specs::iter::IteratorSpec::remaining(&right) == b@.skip(done as int),
            a@.take(done as int) == b@.take(done as int),
        decreases a@.len() - done,
    {
        let x = left.next();
        let y = right.next();
        match (x, y) {
            (Some(c), Some(d)) => {
                if c != d {
                    assert(a@[done as int] == c && b@[done as int] == d);
                    return false;
                }
                proof {
                    assert(a@.take(done as int + 1) =~= a@.take(done as int).push(c));
                    assert(b@.take(done as int + 1) =~= b@.take(done as int).push(d));
                    done = done + 1;
                }
            },
            (None, None) => {
                assert(a@.take(done as int) =~= a@);
                assert(b@.take(done as int) =~= b@);
                return true;
            },
            _ => {
                assert(a@.len() != b@.len());
                return false;
            },
        }
    }
}

/// Whether two slices hold the same characters.
pub fn same_chars(a: &[char], b: &[char]) -> (r: bool)
    ensures
        r == (a@ == b@),
{
    if a.len() != b.len() {
        return false;
    }
    for i in 0..a.len()
        invariant
            a@.len() == b@.len(),
            forall|j: int| 0 <= j < i ==> a@[j] == b@[j],
    {
        if a[i] != b[i] {
            return false;
        }
    }
    assert(a@ =~= b@);
    true
}

/// Whether `s` begins with `prefix`.
pub fn starts_with(s: &[char], prefix: &[char]) -> (r: bool)
    ensures
        r == prefix@.is_prefix_of(s@),
{
    prefix.len() <= s.len() && same_chars(prefix, slice_subrange(s, 0, prefix.len()))
}

/// Whether `s` ends with `suffix`.
pub fn ends_with(s: &[char], suffix: &[char]) -> (r: bool)
    ensures
        r == suffix@.is_suffix_of(s@),
{
    suffix.len() <= s.len() && same_chars(
        suffix,
        slice_subrange(s, s.len() - suffix.len(), s.len()),
    )
}

/// Whether `pattern` stands in `s` from the position `at` on.
pub open spec fn occurs_at(s: Seq<char>, pattern: Seq<char>, at: int) -> bool {
    0 <= at && at + pattern.len() <= s.len() && s.subrange(at, at + pattern.len()) == pattern
}

/// Whether `pattern` stands anywhere in `s`.
pub open spec fn occurs_in(s: Seq<char>, pattern: Seq<char>) -> bool {
    exists|at: int| occurs_at(s, pattern, at)
}

/// Whether the string `s` contains the string `pattern`.
pub fn contains_text(s: &str, pattern: &str) -> (r: bool)
    ensures
        r == occurs_in(s@, pattern@),
{
    let text = chars_of(s);
    let wanted = chars_of(pattern);
    if wanted.len() > text.len() {
        return false;
    }
    let last: usize = text.len() - wanted.len();
    let mut at: usize = 0;
    loop
        invariant
            text@ == s@,
            wanted@ == pattern@,
            at <= last,
            last + wanted.len() == text.len(),
            forall|i: int| 0 <= i < at ==> !occurs_at(s@, pattern@, i),
        decreases last - at,
    {
        if same_chars(slice_subrange(text.as_slice(), at, at + wanted.len()), wanted.as_slice()) {
            assert(occurs_at(s@, pattern@, at as int));
            return true;
        }
        if at == last {
            return false;
        }
        at += 1;
    }
}

/// What to look for in a string, one character at a time.
#[derive(Clone, Copy, Debug, PartialEq, Eq)]
pub enum Pattern {
    /// The given character.
    Char(char),
    /// White space.
    Space,
    /// What ends the identifier of a declaration.
    NameEnd,
    /// What ends the label of a parameter.
    LabelEnd,
    /// What ends the word of an attribute.
    WordEnd,
}

impl Pattern {
    pub open spec fn admits(self, c: char) -> bool {
        match self {
            Pattern::Char(d) => c == d,
            Pattern::Space => white_space(c),
            Pattern::NameEnd => c == '(' || c == ':' || c == '<' || c == '=' || c == '{'
                || white_space(c),
            Pattern::LabelEnd => c == ':' || white_space(c),
            Pattern::WordEnd => c == '(' || white_space(c),
        }
    }

    pub fn matches_char(self, c: char) -> (r: bool)
        ensures
            r == self.admits(c),
    {
        match self {
            Pattern::Char(d) => c == d,
            Pattern::Space => is_whitespace(c),
            Pattern::NameEnd => c == '(' || c == ':' || c == '<' || c == '=' || c == '{'
                || is_whitespace(c),
            Pattern::LabelEnd => c == ':' || is_whitespace(c),
            Pattern::WordEnd => c == '(' || is_whitespace(c),
        }
    }
}

/// The position of the first character that `p` admits; the length of `s`
/// where there is none.
pub open spec fn first_match(s: Seq<char>, p: Pattern) -> nat
    decreases s.len(),
{
    if s.len() == 0 || p.admits(s[0]) {
        0
    } else {
        1 + first_match(s.skip(1), p)
    }
}

/// `first_match` is the least position whose character `p` admits.
pub proof fn lemma_first_match(s: Seq<char>, p: Pattern)
    ensures
        first_match(s, p) <= s.len(),
        first_match(s, p) < s.len() ==> p.admits(s[first_match(s, p) as int]),
        forall|i: int| 0 <= i < first_match(s, p) ==> !p.admits(#[trigger] s[i]),
    decreases s.len(),
{
    if s.len() > 0 && !p.admits(s[0]) {
        lemma_first_match(s.skip(1), p);
        assert forall|i: int| 0 <= i < first_match(s, p) implies !p.admits(#[trigger] s[i]) by {
            if i > 0 {
                assert(s[i] == s.skip(1)[i - 1]);
            }
        }
    }
}

/// The least position whose character `p` admits is `first_match`.
pub proof fn lemma_first_match_is(s: Seq<char>, p: Pattern, n: int)
    requires
        0 <= n <= s.len(),
        n < s.len() ==> p.admits(s[n]),
        forall|i: int| 0 <= i < n ==> !p.admits(#[trigger] s[i]),
    ensures
        first_match(s, p) == n,
{
    lemma_first_match(s, p);
}

/// The position of the first character that `p` matches, or the length.
pub fn position(s: &[char], p: Pattern) -> (r: usize)
    ensures
        r == first_match(s@, p),
        r <= s@.len(),
{
    let mut i: usize = 0;
    while i < s.len()
        invariant
            i <= s@.len(),
            forall|j: int| 0 <= j < i ==> !p.admits(#[trigger] s@[j]),
        decreases s@.len() - i,
    {
        if p.matches_char(s[i]) {
            proof {
                lemma_first_match_is(s@, p, i as int);
            }
            return i;
        }
        i += 1;
    }
    proof {
        lemma_first_match_is(s@, p, i as int);
    }
    i
}

/// `s` without its leading white space.
pub open spec fn trimmed_start(s: Seq<char>) -> Seq<char>
    decreases s.len(),
{
    if s.len() > 0 && white_space(s[0]) {
        trimmed_start(s.skip(1))
    } else {
        s
    }
}

/// `s` without its trailing white space.
pub open spec fn trimmed_end(s: Seq<char>) -> Seq<char>
    decreases s.len(),
{
    if s.len() > 0 && white_space(s.last()) {
        trimmed_end(s.drop_last())
    } else {
        s
    }
}

/// `s` without white space at either end.
pub open spec fn trimmed(s: Seq<char>) -> Seq<char> {
    trimmed_end(trimmed_start(s))
}

pub fn trim_start(s: &[char]) -> (r: &[char])
    ensures
        r@ == trimmed_start(s@),
{
    let mut i: usize = 0;
    assert(s@.skip(0) =~= s@);
    while i < s.len() && is_whitespace(s[i])
        invariant
            i <= s@.len(),
            trimmed_start(s@) == trimmed_start(s@.skip(i as int)),
        decreases s@.len() - i,
    {
        assert(s@.skip(i as int).skip(1) =~= s@.skip(i as int + 1));
        i += 1;
    }
    slice_subrange(s, i, s.len())
}

pub fn trim_end(s: &[char]) -> (r: &[char])
    ensures
        r@ == trimmed_end(s@),
{
    let mut n: usize = s.len();
    assert(s@.take(n as int) =~= s@);
    while n > 0 && is_whitespace(s[n - 1])
        invariant
            n <= s@.len(),
            trimmed_end(s@) == trimmed_end(s@.take(n as int)),
        decreases n,
    {
        assert(s@.take(n as int).drop_last() =~= s@.take(n as int - 1));
        n -= 1;
    }
    slice_subrange(s, 0, n)
}

pub fn trim(s: &[char]) -> (r: &[char])
    ensures
        r@ == trimmed(s@),
{
    trim_end(trim_start(s))
}

/// The contents of a sequence of slices.
pub open spec fn pieces(v: Seq<&[char]>) -> Seq<Seq<char>> {
    Seq::new(v.len(), |i: int| v[i]@)
}

/// The contents of a sequence of strings.
pub open spec fn strings(v: Seq<String>) -> Seq<Seq<char>> {
    Seq::new(v.len(), |i: int| v[i]@)
}

/// A line without the carriage return that belongs to its line ending.
pub open spec fn chomped(line: Seq<char>) -> Seq<char> {
    if line.len() > 0 && line.last() == '\r' {
        line.drop_last()
    } else {
        line
    }
}

/// The lines of a text. A line ends with `\n` or `\r\n`, which is not part of
/// it; the ending of the last line is optional.
pub open spec fn line_list(s: Seq<char>) -> Seq<Seq<char>>
    decreases s.len(),
{
    let n = first_match(s, Pattern::Char('\n'));
    if s.len() == 0 {
        seq![]
    } else if n < s.len() {
        seq![chomped(s.take(n as int))] + line_list(s.skip(n as int + 1))
    } else {
        seq![s]
    }
}

/// The first line of a text; nothing where the text is empty.
pub open spec fn first_line(s: Seq<char>) -> Seq<char> {
    if line_list(s).len() == 0 {
        seq![]
    } else {
        line_list(s)[0]
    }
}

/// The first line of a non-empty text, and where the text after it starts.
fn split_line(s: &[char]) -> (r: (&[char], usize))
    requires
        s@.len() > 0,
    ensures
        0 < r.1 <= s@.len(),
        line_list(s@) == seq![r.0@] + line_list(s@.skip(r.1 as int)),
{
    let n = position(s, Pattern::Char('\n'));
    if n == s.len() {
        assert(line_list(s@.skip(n as int)) =~= Seq::<Seq<char>>::empty());
        assert(line_list(s@) =~= seq![s@] + line_list(s@.skip(n as int)));
        return (s, n);
    }
    let line = slice_subrange(s, 0, n);
    assert(line@ =~= s@.take(n as int));
    if n > 0 && s[n - 1] == '\r' {
        let short = slice_subrange(s, 0, n - 1);
        assert(short@ =~= s@.take(n as int).drop_last());
        (short, n + 1)
    } else {
        (line, n + 1)
    }
}

/// The lines of a text.
pub fn lines(s: &[char]) -> (r: Vec<&[char]>)
    ensures
        pieces(r@) == line_list(s@),
{
    let mut out: Vec<&[char]> = Vec::new();
    let mut rest = s;
    assert(pieces(out@) + line_list(rest@) =~= line_list(s@));
    while rest.len() > 0
        invariant
            pieces(out@) + line_list(rest@) == line_list(s@),
        decreases rest@.len(),
    {
        let (line, n) = split_line(rest);
        let ghost before = out@;
        let ghost whole = rest@;
        out.push(line);
        rest = slice_subrange(rest, n, rest.len());
        assert(rest@ =~= whole.skip(n as int));
        assert(pieces(out@) =~= pieces(before).push(line@));
        assert(pieces(out@) + line_list(rest@) =~= pieces(before) + line_list(whole));
    }
    assert(pieces(out@) =~= line_list(s@));
    out
}

/// The first line of a text.
pub fn head_line(s: &[char]) -> (r: &[char])
    ensures
        r@ == first_line(s@),
{
    if s.len() == 0 {
        assert(s@ =~= seq![]);
        return s;
    }
    let (line, _) = split_line(s);
    line
}

/// The words of a text: its longest stretches without white space.
pub open spec fn word_list(s: Seq<char>) -> Seq<Seq<char>>
    decreases s.len(),
{
    if s.len() == 0 {
        seq![]
    } else if white_space(s[0]) {
        word_list(s.skip(1))
    } else {
        let n = first_match(s, Pattern::Space);
        proof {
            lemma_first_match(s, Pattern::Space);
        }
        seq![s.take(n as int)] + word_list(s.skip(n as int))
    }
}

/// The words of a text.
pub fn words(s: &[char]) -> (r: Vec<&[char]>)
    ensures
        pieces(r@) == word_list(s@),
{
    let mut out: Vec<&[char]> = Vec::new();
    let mut rest = s;
    assert(pieces(out@) + word_list(rest@) =~= word_list(s@));
    while rest.len() > 0
        invariant
            pieces(out@) + word_list(rest@) == word_list(s@),
        decreases rest@.len(),
    {
        let ghost whole = rest@;
        if is_whitespace(rest[0]) {
            rest = slice_subrange(rest, 1, rest.len());
            assert(rest@ =~= whole.skip(1));
        } else {
            let n = position(rest, Pattern::Space);
            let ghost before = out@;
            let word = slice_subrange(rest, 0, n);
            out.push(word);
            rest = slice_subrange(rest, n, rest.len());
            assert(word@ =~= whole.take(n as int));
            assert(rest@ =~= whole.skip(n as int));
            assert(pieces(out@) =~= pieces(before).push(word@));
            assert(pieces(out@) + word_list(rest@) =~= pieces(before) + word_list(whole));
        }
    }
    assert(pieces(out@) =~= word_list(s@));
    out
}

/// The stretches of a text between the characters that `p` admits.
pub open spec fn split_list(s: Seq<char>, p: Pattern) -> Seq<Seq<char>>
    decreases s.len(),
{
    let n = first_match(s, p);
    if n < s.len() {
        seq![s.take(n as int)] + split_list(s.skip(n as int + 1), p)
    } else {
        seq![s]
    }
}

/// The stretches of a text between the characters that `p` admits.
pub fn split(s: &[char], p: Pattern) -> (r: Vec<&[char]>)
    ensures
        pieces(r@) == split_list(s@, p),
{
    let mut out: Vec<&[char]> = Vec::new();
    let mut rest = s;
    assert(pieces(out@) + split_list(rest@, p) =~= split_list(s@, p));
    loop
        invariant
            pieces(out@) + split_list(rest@, p) == split_list(s@, p),
        decreases rest@.len(),
    {
        let ghost whole = rest@;
        let ghost before = out@;
        let n = position(rest, p);
        if n == rest.len() {
            out.push(rest);
            assert(pieces(out@) =~= pieces(before) + split_list(whole, p));
            return out;
        }
        let piece = slice_subrange(rest, 0, n);
        out.push(piece);
        rest = slice_subrange(rest, n + 1, rest.len());
        assert(piece@ =~= whole.take(n as int));
        assert(rest@ =~= whole.skip(n as int + 1));
        assert(pieces(out@) =~= pieces(before).push(piece@));
        assert(pieces(out@) + split_list(rest@, p) =~= pieces(before) + split_list(whole, p));
    }
}

/// The parts one after the other, with `separator` between neighbours.
pub open spec fn joined(parts: Seq<Seq<char>>, separator: Seq<char>) -> Seq<char>
    decreases parts.len(),
{
    if parts.len() == 0 {
        seq![]
    } else if parts.len() == 1 {
        parts[0]
    } else {
        joined(parts.drop_last(), separator) + separator + parts.last()
    }
}

/// The strings one after the other, with `separator` between neighbours.
pub fn join_strings(parts: &Vec<String>, separator: &str) -> (r: String)
    ensures
        r@ == joined(strings(parts@), separator@),
{
    let mut out = String::new();
    for i in 0..parts.len()
        invariant
            out@ == joined(strings(parts@).take(i as int), separator@),
    {
        let ghost all = strings(parts@);
        assert(all.take(i as int + 1).drop_last() =~= all.take(i as int));
        if i > 0 {
            out.push_str(separator);
        }
        out.push_str(parts[i].as_str());
        if i == 0 {
            assert(out@ =~= all[0]);
        }
    }
    assert(strings(parts@).take(parts@.len() as int) =~= strings(parts@));
    out
}

/// The words from `from` on, with one space between neighbours.
pub fn join_words(words: &Vec<&[char]>, from: usize) -> (r: Vec<char>)
    requires
        from <= words@.len(),
    ensures
        r@ == joined(pieces(words@).skip(from as int), seq![' ']),
{
    let mut out: Vec<char> = Vec::new();
    let ghost all = pieces(words@).skip(from as int);
    let mut i: usize = from;
    while i < words.len()
        invariant
            from <= i <= words@.len(),
            all == pieces(words@).skip(from as int),
            out@ == joined(all.take(i - from), seq![' ']),
        decreases words@.len() - i,
    {
        assert(all.take(i - from + 1).drop_last() =~= all.take(i - from));
        if i > from {
            out.push(' ');
        }
        let ghost before = out@;
        let word = words[i];
        for k in 0..word.len()
            invariant
                out@ == before + word@.take(k as int),
        {
            out.push(word[k]);
        }
        assert(out@ =~= before + word@);
        assert(all[i - from] == word@);
        if i == from {
            assert(out@ =~= all[0]);
        } else {
            assert(before =~= joined(all.take(i - from), seq![' ']) + seq![' ']);
        }
        i += 1;
    }
    assert(all.take(words@.len() - from) =~= all);
    out
}

/// `n` in decimal notation.
pub open spec fn decimal_digits(n: nat) -> Seq<char>
    decreases n,
{
    if n < 10 {
        seq![digit_char(n)]
    } else {
        decimal_digits(n / 10).push(digit_char(n % 10))
    }
}

/// The digit for a number below ten.
pub open spec fn digit_char(n: nat) -> char {
    (48 + n) as char
}

/// `n` in decimal notation.
pub fn decimal(n: usize) -> (r: String)
    ensures
        r@ == decimal_digits(n as nat),
    decreases n,
{
    let digit = (48u8 + (n % 10) as u8) as char;
    if n < 10 {
        let mut out = String::new();
        out.push(digit);
        out
    } else {
        let mut out = decimal(n / 10);
        out.push(digit);
        out
    }
}

} // verus!
