//! The attributes that a declaration starts with.

use vstd::prelude::*;
use vstd::slice::slice_subrange;

use crate::text::{
    first_match, is_whitespace, lemma_first_match, position, trim_start, trimmed_start,
    white_space, Pattern,
};

verus! {

/// Where a scan of an argument list stands.
pub struct Scan {
    /// How many parentheses are open.
    pub depth: nat,
    /// In a string literal, how many number signs delimit it.
    pub quote: Option<nat>,
    /// Outside, how many number signs stand just before.
    pub hashes: nat,
}

/// Whether a text starts with what ends a string literal that `hashes` number
/// signs delimit.
pub open spec fn ends_quote(s: Seq<char>, hashes: nat) -> bool {
    &&& s.len() > hashes
    &&& s[0] == '"'
    &&& forall|i: int| 1 <= i <= hashes ==> #[trigger] s[i] == '#'
}

impl Scan {
    /// A scan that is about to start.
    pub open spec fn start() -> Scan {
        Scan { depth: 0, quote: None, hashes: 0 }
    }

    /// Whether the list ends with the first character of `s`.
    pub open spec fn ends(self, s: Seq<char>) -> bool {
        self.quote is None && s[0] == ')' && self.depth <= 1
    }

    /// How many characters of `s` the scan takes next.
    pub open spec fn stride(self, s: Seq<char>) -> nat {
        match self.quote {
            Some(k) => if ends_quote(s, k) {
                1 + k
            } else if k == 0 && s[0] == '\\' && s.len() > 1 {
                2
            } else {
                1
            },
            None => 1,
        }
    }

    /// Where the scan stands behind them.
    pub open spec fn next(self, s: Seq<char>) -> Scan {
        match self.quote {
            Some(k) => if ends_quote(s, k) {
                Scan { quote: None, hashes: 0, ..self }
            } else {
                self
            },
            None => if s[0] == '#' {
                Scan { hashes: self.hashes + 1, ..self }
            } else if s[0] == '"' {
                Scan { quote: Some(self.hashes), hashes: 0, ..self }
            } else if s[0] == '(' {
                Scan { depth: self.depth + 1, hashes: 0, ..self }
            } else if s[0] == ')' && self.depth > 0 {
                Scan { depth: (self.depth - 1) as nat, hashes: 0, ..self }
            } else {
                Scan { hashes: 0, ..self }
            },
        }
    }
}

/// How many characters of a text belong to the argument list that a scan is
/// in: those up to the parenthesis that closes it. Parentheses in string
/// literals do not count. `None` where nothing closes the list.
pub open spec fn list_end(s: Seq<char>, scan: Scan) -> Option<nat>
    decreases s.len(),
{
    if s.len() == 0 {
        None
    } else if scan.ends(s) {
        Some(1)
    } else {
        match list_end(s.skip(scan.stride(s) as int), scan.next(s)) {
            Some(n) => Some(scan.stride(s) + n),
            None => None,
        }
    }
}

/// The length of the first line of a text.
pub open spec fn line_len(s: Seq<char>) -> nat {
    first_match(s, Pattern::Char('\n'))
}

/// How many characters the attribute has that a text starts with: its word,
/// and the argument list that follows directly. A list that nothing closes
/// ends with its line.
pub open spec fn attribute_len(s: Seq<char>) -> nat {
    let n = first_match(s, Pattern::WordEnd);
    if n < s.len() && s[n as int] == '(' {
        match list_end(s.skip(n as int), Scan::start()) {
            Some(m) => n + m,
            None => line_len(s),
        }
    } else {
        n
    }
}

/// A text without the white space that it starts with, up to a line feed.
pub open spec fn unindented(s: Seq<char>) -> Seq<char>
    decreases s.len(),
{
    if s.len() > 0 && white_space(s[0]) && s[0] != '\n' {
        unindented(s.skip(1))
    } else {
        s
    }
}

/// Whether a declaration can start with a character: with a letter, an
/// underscore or a back quote. Characters outside of ASCII count as letters.
pub open spec fn starts_declaration(c: char) -> bool {
    ||| 'a' <= c && c <= 'z'
    ||| 'A' <= c && c <= 'Z'
    ||| c == '_'
    ||| c == '`'
    ||| c > '\u{7F}' && !white_space(c)
}

/// A text without the attributes that it starts with, and without the white
/// space before, between and after them. What follows attributes on their line
/// goes with them, unless a declaration starts there.
pub open spec fn without_attributes(s: Seq<char>) -> Seq<char>
    decreases s.len(),
{
    let t = trimmed_start(s);
    if t.len() > 0 && t[0] == '@' {
        let rest = unindented(t.skip(attribute_len(t) as int));
        proof {
            lemma_trimmed_start_len(s);
            lemma_attribute_len(t);
            lemma_unindented(t.skip(attribute_len(t) as int));
            lemma_first_match(rest, Pattern::Char('\n'));
        }
        if rest.len() > 0 && starts_declaration(rest[0]) {
            rest
        } else if rest.len() > 0 && rest[0] == '@' {
            without_attributes(rest)
        } else {
            without_attributes(rest.skip(line_len(rest) as int))
        }
    } else {
        t
    }
}

pub proof fn lemma_trimmed_start_len(s: Seq<char>)
    ensures
        trimmed_start(s).len() <= s.len(),
        trimmed_start(s).len() > 0 ==> !white_space(trimmed_start(s)[0]),
    decreases s.len(),
{
    if s.len() > 0 && white_space(s[0]) {
        lemma_trimmed_start_len(s.skip(1));
    }
}

pub proof fn lemma_unindented(s: Seq<char>)
    ensures
        unindented(s).len() <= s.len(),
        unindented(s).len() > 0 ==> !white_space(unindented(s)[0]) || unindented(s)[0] == '\n',
        unindented(s) == s.skip(s.len() - unindented(s).len()),
    decreases s.len(),
{
    if s.len() > 0 && white_space(s[0]) && s[0] != '\n' {
        let r = s.skip(1);
        lemma_unindented(r);
        let n = s.len() - unindented(s).len();
        assert(s.skip(n) =~= r.skip(n - 1));
    } else {
        assert(s.skip(0) =~= s);
    }
}

pub proof fn lemma_list_end(s: Seq<char>, scan: Scan)
    ensures
        match list_end(s, scan) {
            Some(n) => 0 < n <= s.len() && s[n - 1] == ')',
            None => true,
        },
    decreases s.len(),
{
    if s.len() > 0 && !scan.ends(s) {
        lemma_list_end(s.skip(scan.stride(s) as int), scan.next(s));
    }
}

pub proof fn lemma_attribute_len(s: Seq<char>)
    requires
        s.len() > 0,
        s[0] == '@',
    ensures
        0 < attribute_len(s) <= s.len(),
{
    let n = first_match(s, Pattern::WordEnd);
    lemma_first_match(s, Pattern::WordEnd);
    lemma_first_match(s, Pattern::Char('\n'));
    lemma_list_end(s.skip(n as int), Scan::start());
}

/// What is left starts with neither white space nor an attribute.
pub proof fn lemma_without_attributes(s: Seq<char>)
    ensures
        without_attributes(s).len() > 0 ==> !white_space(without_attributes(s)[0])
            && without_attributes(s)[0] != '@',
    decreases s.len(),
{
    let t = trimmed_start(s);
    lemma_trimmed_start_len(s);
    if t.len() > 0 && t[0] == '@' {
        let rest = unindented(t.skip(attribute_len(t) as int));
        lemma_attribute_len(t);
        lemma_unindented(t.skip(attribute_len(t) as int));
        lemma_first_match(rest, Pattern::Char('\n'));
        if rest.len() > 0 && rest[0] == '@' {
            lemma_without_attributes(rest);
        } else {
            lemma_without_attributes(rest.skip(line_len(rest) as int));
        }
    }
}

/// Whether `s` ends, from `at` on, a string literal that `hashes` number signs
/// delimit.
fn quote_ends(s: &[char], at: usize, hashes: usize) -> (r: bool)
    requires
        at < s@.len(),
    ensures
        r == ends_quote(s@.skip(at as int), hashes as nat),
{
    if s[at] != '"' || s.len() - at <= hashes {
        return false;
    }
    let ghost t = s@.skip(at as int);
    let len = s.len();
    let mut i: usize = 0;
    while i < hashes
        invariant
            t == s@.skip(at as int),
            len == s@.len(),
            at < len,
            len - at > hashes,
            i <= hashes,
            forall|j: int| 1 <= j <= i ==> #[trigger] t[j] == '#',
        decreases hashes - i,
    {
        i += 1;
        assert(t[i as int] == s@[at + i]);
        if s[at + i] != '#' {
            return false;
        }
    }
    true
}

/// The length of the argument list at the start of a text.
fn find_list_end(s: &[char]) -> (r: Option<usize>)
    ensures
        match r {
            Some(n) => list_end(s@, Scan::start()) == Some(n as nat) && n <= s@.len(),
            None => list_end(s@, Scan::start()) is None,
        },
{
    let mut i: usize = 0;
    let mut depth: usize = 0;
    let mut quote: Option<usize> = None;
    let mut hashes: usize = 0;
    let ghost whole = list_end(s@, Scan::start());
    assert(s@.skip(0) =~= s@);
    while i < s.len()
        invariant
            whole == list_end(s@, Scan::start()),
            i <= s@.len(),
            depth <= i,
            hashes <= i,
            ({
                let scan = Scan {
                    depth: depth as nat,
                    quote: match quote {
                        Some(k) => Some(k as nat),
                        None => None,
                    },
                    hashes: hashes as nat,
                };
                whole == match list_end(s@.skip(i as int), scan) {
                    Some(n) => Some((i + n) as nat),
                    None => None,
                }
            }),
        decreases s@.len() - i,
    {
        let c = s[i];
        let ghost t = s@.skip(i as int);
        proof {
            assert(t[0] == c);
            assert(t.skip(1) =~= s@.skip(i as int + 1));
        }
        match quote {
            Some(k) => {
                if quote_ends(s, i, k) {
                    assert(t.skip(1 + k as int) =~= s@.skip(i as int + 1 + k as int));
                    quote = None;
                    hashes = 0;
                    i = i + 1 + k;
                } else if k == 0 && c == '\\' && s.len() - i > 1 {
                    assert(t.skip(2) =~= s@.skip(i as int + 2));
                    i += 2;
                } else {
                    i += 1;
                }
            },
            None => {
                if c == ')' && depth <= 1 {
                    return Some(i + 1);
                }
                if c == '#' {
                    hashes += 1;
                } else {
                    if c == '"' {
                        quote = Some(hashes);
                    } else if c == '(' {
                        depth += 1;
                    } else if c == ')' {
                        depth -= 1;
                    }
                    hashes = 0;
                }
                i += 1;
            },
        }
    }
    None
}

/// The length of the attribute at the start of a text.
fn find_attribute_end(s: &[char]) -> (r: usize)
    requires
        s@.len() > 0,
        s@[0] == '@',
    ensures
        r == attribute_len(s@),
        0 < r <= s@.len(),
{
    proof {
        lemma_attribute_len(s@);
    }
    let n = position(s, Pattern::WordEnd);
    if n < s.len() && s[n] == '(' {
        let list = slice_subrange(s, n, s.len());
        assert(list@ =~= s@.skip(n as int));
        match find_list_end(list) {
            Some(m) => n + m,
            None => position(s, Pattern::Char('\n')),
        }
    } else {
        n
    }
}

/// A text without the white space that it starts with, up to a line feed.
fn unindent(s: &[char]) -> (r: &[char])
    ensures
        r@ == unindented(s@),
{
    let mut i: usize = 0;
    assert(s@.skip(0) =~= s@);
    while i < s.len() && is_whitespace(s[i]) && s[i] != '\n'
        invariant
            i <= s@.len(),
            unindented(s@) == unindented(s@.skip(i as int)),
        decreases s@.len() - i,
    {
        assert(s@.skip(i as int).skip(1) =~= s@.skip(i as int + 1));
        i += 1;
    }
    slice_subrange(s, i, s.len())
}

fn can_start(c: char) -> (r: bool)
    ensures
        r == starts_declaration(c),
{
    ('a' <= c && c <= 'z') || ('A' <= c && c <= 'Z') || c == '_' || c == '`' || (c > '\u{7F}'
        && !is_whitespace(c))
}

/// A text without the attributes that it starts with.
pub fn strip_attributes(s: &[char]) -> (r: &[char])
    ensures
        r@ == without_attributes(s@),
{
    let mut text = trim_start(s);
    proof {
        lemma_trimmed_twice(s@);
    }
    while text.len() > 0 && text[0] == '@'
        invariant
            text@ == trimmed_start(text@),
            without_attributes(text@) == without_attributes(s@),
        decreases text@.len(),
    {
        let ghost whole = text@;
        let n = find_attribute_end(text);
        let tail = slice_subrange(text, n, text.len());
        assert(tail@ =~= whole.skip(attribute_len(whole) as int));
        let rest = unindent(tail);
        proof {
            lemma_unindented(tail@);
            lemma_first_match(rest@, Pattern::Char('\n'));
        }
        if rest.len() > 0 && can_start(rest[0]) {
            return rest;
        }
        if rest.len() > 0 && rest[0] == '@' {
            text = rest;
        } else {
            let later = slice_subrange(rest, position(rest, Pattern::Char('\n')), rest.len());
            assert(later@ =~= rest@.skip(line_len(rest@) as int));
            text = trim_start(later);
            proof {
                lemma_trimmed_start_len(later@);
                lemma_trimmed_twice(later@);
            }
        }
    }
    text
}

proof fn lemma_trimmed_twice(s: Seq<char>)
    ensures
        trimmed_start(trimmed_start(s)) == trimmed_start(s),
        without_attributes(trimmed_start(s)) == without_attributes(s),
{
    lemma_trimmed_start_len(s);
}

} // verus!
