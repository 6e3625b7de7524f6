//! What is taken off with the attributes that a declaration starts with.

use vstd::prelude::*;

use crate::attributes::{
    attribute_len, ends_quote, lemma_attribute_len, lemma_list_end, lemma_trimmed_start_len,
    lemma_unindented, line_len, list_end, starts_declaration, unindented, without_attributes, Scan,
};
use crate::declaration::blank;
use crate::text::{
    first_match, lemma_first_match, lemma_first_match_is, trimmed_start, white_space, Pattern,
};

verus! {

/// Whether a text is an attribute: a word that starts with `@`, alone or with
/// an argument list behind it, so that nothing that comes after white space
/// belongs to it.
pub open spec fn is_attribute(a: Seq<char>) -> bool {
    a.len() > 0 && a[0] == '@' && attribute_len(a.push(' ')) == a.len()
}

/// Whether a text that comes after an attribute and white space is not part of
/// the attribute's line: a line feed stands between them, or the text starts
/// as a declaration or with an attribute.
pub open spec fn goes_with(space: Seq<char>, s: Seq<char>) -> bool {
    &&& space.len() > 0
    &&& blank(space)
    &&& space.contains('\n') || (s.len() > 0 && (s[0] == '@' || starts_declaration(s[0])))
}

/// Where a list is closed does not depend on what comes after it.
proof fn lemma_list_closed(s: Seq<char>, t: Seq<char>, scan: Scan)
    requires
        list_end(s, scan) is Some,
        list_end(s, scan)->0 <= t.len(),
        forall|i: int| 0 <= i < list_end(s, scan)->0 ==> #[trigger] s[i] == t[i],
    ensures
        list_end(t, scan) == list_end(s, scan),
    decreases s.len(),
{
    let n = list_end(s, scan)->0;
    lemma_list_end(s, scan);
    assert(s[0] == t[0]);
    if !scan.ends(s) {
        let m = scan.stride(s) as int;
        let rest = s.skip(m);
        lemma_list_end(rest, scan.next(s));
        match scan.quote {
            Some(k) => {
                if ends_quote(s, k) {
                    assert forall|i: int| 1 <= i <= k implies #[trigger] t[i] == '#' by {
                        assert(s[i] == t[i]);
                    }
                } else if ends_quote(t, k) {
                    assert(s[n - 1] == t[n - 1]);
                    if n - 1 <= k {
                        assert(t[n - 1] == '#');
                    }
                    assert forall|i: int| 1 <= i <= k implies #[trigger] s[i] == '#' by {
                        assert(t[i] == '#');
                    }
                }
            },
            None => {},
        }
        assert(scan.stride(t) == scan.stride(s));
        assert(scan.next(t) == scan.next(s));
        assert forall|i: int| 0 <= i < n - m implies #[trigger] rest[i] == t.skip(m)[i] by {
            assert(s[i + m] == t[i + m]);
        }
        lemma_list_closed(rest, t.skip(m), scan.next(s));
    }
}

pub proof fn lemma_trimmed_start_space(space: Seq<char>, s: Seq<char>)
    requires
        blank(space),
    ensures
        trimmed_start(space + s) == trimmed_start(s),
    decreases space.len(),
{
    if space.len() == 0 {
        assert(space + s =~= s);
    } else {
        assert(white_space(space[0]));
        assert((space + s).skip(1) =~= space.skip(1) + s);
        assert forall|i: int| 0 <= i < space.skip(1).len() implies white_space(
            #[trigger] space.skip(1)[i],
        ) by {
            assert(space.skip(1)[i] == space[i + 1]);
        }
        lemma_trimmed_start_space(space.skip(1), s);
    }
}

/// White space before a text is taken off.
proof fn lemma_space_taken_off(space: Seq<char>, s: Seq<char>)
    requires
        blank(space),
    ensures
        without_attributes(space + s) == without_attributes(s),
{
    lemma_trimmed_start_space(space, s);
}

/// What is left of white space and a text behind it, up to a line feed: the
/// text, or the white space from the line feed on and the text.
proof fn lemma_unindented_space(space: Seq<char>, s: Seq<char>) -> (n: int)
    requires
        blank(space),
        s.len() > 0 ==> !white_space(s[0]) || s[0] == '\n' || space.contains('\n'),
    ensures
        0 <= n <= space.len(),
        unindented(space + s) == space.skip(n) + s,
        n < space.len() ==> space[n] == '\n',
        space.contains('\n') ==> n < space.len(),
    decreases space.len(),
{
    if space.len() == 0 {
        assert(space + s =~= s);
        assert(space.skip(0) + s =~= s);
        0
    } else if space[0] == '\n' {
        assert((space + s)[0] == '\n');
        assert(space.skip(0) =~= space);
        0
    } else {
        let r = space.skip(1);
        assert(white_space(space[0]));
        assert((space + s).skip(1) =~= r + s);
        assert forall|i: int| 0 <= i < r.len() implies white_space(#[trigger] r[i]) by {
            assert(r[i] == space[i + 1]);
        }
        if space.contains('\n') {
            let i = choose|i: int| 0 <= i < space.len() && space[i] == '\n';
            assert(r[i - 1] == '\n');
        }
        let n = lemma_unindented_space(r, s);
        assert(space.skip(n + 1) =~= r.skip(n));
        if r.contains('\n') {
            let i = choose|i: int| 0 <= i < r.len() && r[i] == '\n';
            assert(space[i + 1] == '\n');
        }
        n + 1
    }
}

/// An attribute and white space before a text, line feeds included, are taken
/// off with the attributes that it starts with.
pub proof fn law_attribute_taken_off(a: Seq<char>, space: Seq<char>, s: Seq<char>)
    requires
        is_attribute(a),
        goes_with(space, s),
    ensures
        without_attributes(a + space + s) == without_attributes(s),
{
    let p = Pattern::WordEnd;
    let one = a.push(' ');
    let all = a + space + s;
    let n = first_match(one, p) as int;
    lemma_first_match(one, p);
    lemma_first_match(one, Pattern::Char('\n'));
    assert(all[a.len() as int] == space[0]);
    assert(white_space(space[0]));
    assert forall|i: int| 0 <= i < n implies !p.admits(#[trigger] all[i]) by {
        assert(all[i] == one[i]);
    }
    if n < a.len() {
        assert(one[n] == a[n] && all[n] == a[n]);
    }
    lemma_first_match_is(all, p, n);
    if n < a.len() {
        let list = one.skip(n);
        lemma_list_end(list, Scan::start());
        match list_end(list, Scan::start()) {
            Some(m) => {
                assert forall|i: int| 0 <= i < m implies #[trigger] list[i] == all.skip(n)[i] by {
                    assert(one[n + i] == all[n + i]);
                }
                lemma_list_closed(list, all.skip(n), Scan::start());
            },
            None => {
                let k = line_len(one) as int;
                assert(k == a.len());
                assert(one[k] == '\n');
            },
        }
    }
    assert(attribute_len(all) == a.len());
    assert(all[0] == '@');
    assert(trimmed_start(all) == all);
    assert(all.skip(a.len() as int) =~= space + s);
    let k = lemma_unindented_space(space, s);
    let rest = space.skip(k) + s;
    if k < space.len() {
        assert(rest[0] == '\n');
        assert(first_match(rest, Pattern::Char('\n')) == 0);
        assert(rest.skip(0) =~= rest);
        assert forall|i: int| 0 <= i < space.skip(k).len() implies white_space(
            #[trigger] space.skip(k)[i],
        ) by {
            assert(space.skip(k)[i] == space[i + k]);
        }
        lemma_space_taken_off(space.skip(k), s);
        assert(without_attributes(all) == without_attributes(rest));
    } else {
        assert(rest =~= s);
        if s[0] == '@' {
            assert(without_attributes(all) == without_attributes(s));
        } else {
            assert(without_attributes(all) == s);
            assert(trimmed_start(s) == s);
        }
    }
}

/// Whether a line, with the text `later` behind it, holds attributes or
/// nothing: it is blank, or it starts with an attribute whose argument list does
/// not go on behind the line, and what follows is a line of this kind too or
/// not the start of a declaration.
pub open spec fn attribute_line(line: Seq<char>, later: Seq<char>) -> bool
    decreases line.len(),
{
    let t = trimmed_start(line);
    let n = attribute_len(t + "\n"@ + later) as int;
    let rest = unindented(t.skip(n));
    if t.len() == 0 {
        true
    } else if t[0] != '@' || n > t.len() {
        false
    } else if rest.len() > 0 && rest[0] == '@' {
        proof {
            lemma_trimmed_start_len(line);
            assert((t + "\n"@ + later)[0] == '@');
            lemma_attribute_len(t + "\n"@ + later);
            lemma_unindented(t.skip(n));
        }
        attribute_line(rest, later)
    } else {
        rest.len() == 0 || !starts_declaration(rest[0])
    }
}

/// Whether all lines of a text, with the text `after` behind them, hold
/// attributes or nothing.
pub open spec fn attribute_lines(s: Seq<char>, after: Seq<char>) -> bool
    decreases s.len(),
{
    let n = line_len(s) as int;
    if n < s.len() {
        attribute_line(s.take(n), s.skip(n + 1) + "\n"@ + after) && attribute_lines(
            s.skip(n + 1),
            after,
        )
    } else {
        attribute_line(s, after)
    }
}

pub proof fn lemma_trimmed_start(s: Seq<char>)
    ensures
        trimmed_start(s).len() > 0 ==> !white_space(trimmed_start(s)[0]) && trimmed_start(s).last()
            == s.last(),
        trimmed_start(s).len() == 0 <==> blank(s),
        trimmed_start(s).len() <= s.len(),
        trimmed_start(s) == s.skip(s.len() - trimmed_start(s).len()),
        blank(s.take(s.len() - trimmed_start(s).len())),
    decreases s.len(),
{
    if s.len() > 0 && white_space(s[0]) {
        let r = s.skip(1);
        lemma_trimmed_start(r);
        if blank(r) {
            assert forall|i: int| 0 <= i < s.len() implies white_space(#[trigger] s[i]) by {
                if i > 0 {
                    assert(r[i - 1] == s[i]);
                }
            }
        }
        if blank(s) {
            assert forall|i: int| 0 <= i < r.len() implies white_space(#[trigger] r[i]) by {
                assert(s[i + 1] == r[i]);
            }
        }
        let n = s.len() - trimmed_start(s).len();
        assert(s.skip(n) =~= r.skip(n - 1));
        assert forall|i: int| 0 <= i < n implies white_space(#[trigger] s.take(n)[i]) by {
            if i > 0 {
                assert(r.take(n - 1)[i - 1] == s.take(n)[i]);
            }
        }
    } else {
        assert(s.skip(0) =~= s);
        if s.len() > 0 {
            assert(!white_space(s[0]));
        }
    }
}

proof fn lemma_suffix(line: Seq<char>, k: int)
    requires
        0 <= k <= line.len(),
        !line.contains('\n'),
    ensures
        !line.skip(k).contains('\n'),
{
    let t = line.skip(k);
    if t.contains('\n') {
        let i = choose|i: int| 0 <= i < t.len() && t[i] == '\n';
        assert(line[i + k] == '\n');
    }
}

proof fn lemma_unindented_line(t: Seq<char>, later: Seq<char>)
    requires
        !t.contains('\n'),
    ensures
        unindented(t + "\n"@ + later) == unindented(t) + "\n"@ + later,
    decreases t.len(),
{
    reveal_strlit("\n");
    let all = t + "\n"@ + later;
    if t.len() == 0 {
        assert(all[0] == '\n');
        assert(unindented(t) == t);
    } else {
        assert(t.contains(t[0]));
        assert(all[0] == t[0]);
        if white_space(t[0]) {
            assert(all.skip(1) =~= t.skip(1) + "\n"@ + later);
            lemma_suffix(t, 1);
            lemma_unindented_line(t.skip(1), later);
        }
    }
}

proof fn lemma_blank_line(line: Seq<char>, later: Seq<char>)
    requires
        blank(line),
    ensures
        without_attributes(line + "\n"@ + later) == without_attributes(later),
{
    reveal_strlit("\n");
    let space = line + "\n"@;
    assert forall|i: int| 0 <= i < space.len() implies white_space(#[trigger] space[i]) by {
        if i < line.len() {
            assert(space[i] == line[i]);
        }
    }
    lemma_space_taken_off(space, later);
}

/// A line that holds attributes or nothing is taken off.
proof fn lemma_line_taken_off(line: Seq<char>, later: Seq<char>)
    requires
        attribute_line(line, later),
        !line.contains('\n'),
    ensures
        without_attributes(line + "\n"@ + later) == without_attributes(later),
    decreases line.len(),
{
    lemma_trimmed_start(line);
    if blank(line) {
        lemma_blank_line(line, later);
    } else {
        reveal_strlit("\n");
        let t = trimmed_start(line);
        let all = t + "\n"@ + later;
        let k = line.len() - t.len();
        lemma_suffix(line, k);
        lemma_space_taken_off(line.take(k), all);
        assert(line + "\n"@ + later =~= line.take(k) + all);
        assert(all[0] == '@');
        assert(trimmed_start(all) == all);
        lemma_attribute_len(all);
        let n = attribute_len(all) as int;
        let r = t.skip(n);
        assert(all.skip(n) =~= r + "\n"@ + later);
        lemma_suffix(t, n);
        lemma_unindented_line(r, later);
        lemma_unindented(r);
        let u = unindented(r);
        let v = u + "\n"@ + later;
        lemma_suffix(r, r.len() - u.len());
        if u.len() > 0 && u[0] == '@' {
            assert(v[0] == u[0]);
            lemma_line_taken_off(u, later);
            assert(without_attributes(all) == without_attributes(v));
        } else {
            let f = Pattern::Char('\n');
            assert forall|i: int| 0 <= i < u.len() implies !f.admits(#[trigger] v[i]) by {
                assert(v[i] == u[i]);
                assert(u.contains(u[i]));
            }
            assert(v[u.len() as int] == '\n');
            lemma_first_match_is(v, f, u.len() as int);
            assert(v.skip(u.len() as int) =~= "\n"@ + later);
            let none = Seq::<char>::empty();
            lemma_blank_line(none, later);
            assert(none + "\n"@ + later =~= "\n"@ + later);
            assert(without_attributes(all) == without_attributes("\n"@ + later));
        }
    }
}

/// Lines that hold attributes or nothing are taken off.
pub proof fn law_lines_taken_off(s: Seq<char>, after: Seq<char>)
    requires
        attribute_lines(s, after),
    ensures
        without_attributes(s + "\n"@ + after) == without_attributes(after),
    decreases s.len(),
{
    let n = line_len(s) as int;
    lemma_first_match(s, Pattern::Char('\n'));
    let line = s.take(n);
    assert(!line.contains('\n')) by {
        if line.contains('\n') {
            let i = choose|i: int| 0 <= i < line.len() && line[i] == '\n';
            assert(!Pattern::Char('\n').admits(s[i]));
        }
    }
    if n < s.len() {
        let rest = s.skip(n + 1);
        let later = rest + "\n"@ + after;
        reveal_strlit("\n");
        law_lines_taken_off(rest, after);
        lemma_line_taken_off(line, later);
        assert(s + "\n"@ + after =~= line + "\n"@ + later);
    } else {
        assert(line =~= s);
        lemma_line_taken_off(s, after);
    }
}

// Attributes as they are written.

/// A word that starts with `@` is an attribute, if it holds no parenthesis that
/// opens.
pub proof fn law_word_is_attribute(word: Seq<char>)
    requires
        forall|i: int|
            0 <= i < word.len() ==> !white_space(#[trigger] word[i]) && word[i] != '(',
    ensures
        is_attribute(seq!['@'] + word),
{
    let a = seq!['@'] + word;
    let one = a.push(' ');
    let p = Pattern::WordEnd;
    assert forall|i: int| 0 <= i < a.len() implies !p.admits(#[trigger] one[i]) by {
        if i > 0 {
            assert(one[i] == word[i - 1]);
        }
    }
    lemma_first_match_is(one, p, a.len() as int);
}

proof fn lemma_plain_list(args: Seq<char>, rest: Seq<char>, hashes: nat)
    requires
        forall|i: int|
            0 <= i < args.len() ==> #[trigger] args[i] != '(' && args[i] != ')' && args[i] != '"',
    ensures
        list_end(
            args + seq![')'] + rest,
            Scan { depth: 1, quote: None, hashes },
        ) == Some((args.len() + 1) as nat),
    decreases args.len(),
{
    let s = args + seq![')'] + rest;
    let scan = Scan { depth: 1, quote: None, hashes };
    if args.len() == 0 {
        assert(s[0] == ')');
    } else {
        assert(s[0] == args[0]);
        let more = args.skip(1);
        assert(s.skip(1) =~= more + seq![')'] + rest);
        assert forall|i: int| 0 <= i < more.len() implies #[trigger] more[i] != '(' && more[i]
            != ')' && more[i] != '"' by {
            assert(more[i] == args[i + 1]);
        }
        lemma_plain_list(more, rest, scan.next(s).hashes);
    }
}

/// So is such a word with an argument list behind it, if the arguments hold
/// neither parentheses nor quotation marks.
pub proof fn law_call_is_attribute(word: Seq<char>, args: Seq<char>)
    requires
        forall|i: int|
            0 <= i < word.len() ==> !white_space(#[trigger] word[i]) && word[i] != '(',
        forall|i: int|
            0 <= i < args.len() ==> #[trigger] args[i] != '(' && args[i] != ')' && args[i] != '"',
    ensures
        is_attribute(seq!['@'] + word + seq!['('] + args + seq![')']),
{
    let front = seq!['@'] + word;
    let a = front + seq!['('] + args + seq![')'];
    let one = a.push(' ');
    let p = Pattern::WordEnd;
    let n = front.len() as int;
    assert forall|i: int| 0 <= i < n implies !p.admits(#[trigger] one[i]) by {
        if i > 0 {
            assert(one[i] == word[i - 1]);
        }
    }
    assert(one[n] == '(');
    lemma_first_match_is(one, p, n);
    let list = one.skip(n);
    assert(list[0] == '(');
    assert(list.skip(1) =~= args + seq![')'] + seq![' ']);
    lemma_plain_list(args, seq![' '], 0);
    assert(Scan::start().next(list) == Scan { depth: 1, quote: None, hashes: 0 });
    assert(list_end(list, Scan::start()) == Some((args.len() + 2) as nat));
}

/// A part of the arguments of an attribute.
pub enum Argument {
    /// A character that is neither a parenthesis, nor a quotation mark, nor `#`.
    Plain(char),
    /// Such a character behind as many `#` as given.
    Marked(nat, char),
    /// A string literal in quotation marks, in which a backslash goes with the
    /// character behind it.
    Quoted(Seq<char>),
    /// A string literal with as many `#` as given before and behind its
    /// quotation marks.
    Raw(nat, Seq<char>),
    /// A parenthesis that opens a list in the list.
    Opening,
    /// A parenthesis that closes one.
    Closing,
}

/// Whether a text holds quotation marks behind backslashes only, and no
/// backslash without a character behind it.
pub open spec fn escaped(text: Seq<char>) -> bool
    decreases text.len(),
{
    if text.len() == 0 {
        true
    } else if text[0] == '\\' {
        text.len() > 1 && escaped(text.skip(2))
    } else {
        text[0] != '"' && escaped(text.skip(1))
    }
}

/// As many `#` as given.
pub open spec fn hash_marks(n: nat) -> Seq<char> {
    Seq::new(n, |i: int| '#')
}

impl Argument {
    /// What stands in the declaration.
    pub open spec fn text(self) -> Seq<char> {
        match self {
            Argument::Plain(c) => seq![c],
            Argument::Marked(n, c) => hash_marks(n) + seq![c],
            Argument::Quoted(t) => seq!['"'] + t + seq!['"'],
            Argument::Raw(n, t) => hash_marks(n) + seq!['"'] + t + seq!['"'] + hash_marks(n),
            Argument::Opening => seq!['('],
            Argument::Closing => seq![')'],
        }
    }

    /// Whether the part is what its kind says.
    pub open spec fn valid(self) -> bool {
        match self {
            Argument::Plain(c) => c != '(' && c != ')' && c != '"' && c != '#',
            Argument::Marked(_, c) => c != '(' && c != ')' && c != '"' && c != '#',
            Argument::Quoted(t) => escaped(t),
            Argument::Raw(n, t) => n > 0 && forall|i: int|
                0 <= i < t.len() ==> #[trigger] t[i] != '"',
            _ => true,
        }
    }
}

/// What arguments look like in a declaration.
pub open spec fn arguments_text(args: Seq<Argument>) -> Seq<char>
    decreases args.len(),
{
    if args.len() == 0 {
        seq![]
    } else {
        args[0].text() + arguments_text(args.skip(1))
    }
}

/// Whether every list that is opened among arguments is closed there, given how
/// many are open before them, and no other is.
pub open spec fn balanced(args: Seq<Argument>, open: nat) -> bool
    decreases args.len(),
{
    if args.len() == 0 {
        open == 0
    } else {
        args[0].valid() && match args[0] {
            Argument::Opening => balanced(args.skip(1), open + 1),
            Argument::Closing => open > 0 && balanced(args.skip(1), (open - 1) as nat),
            _ => balanced(args.skip(1), open),
        }
    }
}

/// Where the list ends, if it ends a number of characters after a place.
spec fn later(n: nat, end: Option<nat>) -> Option<nat> {
    match end {
        Some(m) => Some(n + m),
        None => None,
    }
}

proof fn lemma_quoted(text: Seq<char>, more: Seq<char>, depth: nat)
    requires
        escaped(text),
    ensures
        list_end(text + seq!['"'] + more, Scan { depth, quote: Some(0), hashes: 0 }) == later(
            text.len() + 1,
            list_end(more, Scan { depth, quote: None, hashes: 0 }),
        ),
    decreases text.len(),
{
    let scan = Scan { depth, quote: Some(0), hashes: 0 };
    let s = text + seq!['"'] + more;
    if text.len() == 0 {
        assert(s[0] == '"');
        assert(ends_quote(s, 0));
        assert(s.skip(1) =~= more);
    } else if text[0] == '\\' {
        assert(s[0] == '\\');
        assert(!ends_quote(s, 0));
        assert(s.skip(2) =~= text.skip(2) + seq!['"'] + more);
        lemma_quoted(text.skip(2), more, depth);
        assert(scan.stride(s) == 2);
        assert(scan.next(s) == scan);
    } else {
        assert(s[0] == text[0]);
        assert(!ends_quote(s, 0));
        assert(s.skip(1) =~= text.skip(1) + seq!['"'] + more);
        lemma_quoted(text.skip(1), more, depth);
        assert(scan.stride(s) == 1);
        assert(scan.next(s) == scan);
    }
}

proof fn lemma_raw(text: Seq<char>, n: nat, more: Seq<char>, depth: nat)
    requires
        n > 0,
        forall|i: int| 0 <= i < text.len() ==> #[trigger] text[i] != '"',
    ensures
        list_end(
            text + seq!['"'] + hash_marks(n) + more,
            Scan { depth, quote: Some(n), hashes: 0 },
        ) == later(text.len() + 1 + n, list_end(more, Scan { depth, quote: None, hashes: 0 })),
    decreases text.len(),
{
    let scan = Scan { depth, quote: Some(n), hashes: 0 };
    let s = text + seq!['"'] + hash_marks(n) + more;
    if text.len() == 0 {
        assert(s[0] == '"');
        assert forall|i: int| 1 <= i <= n implies #[trigger] s[i] == '#' by {
            assert(s[i] == hash_marks(n)[i - 1]);
        }
        assert(ends_quote(s, n));
        assert(s.skip((1 + n) as int) =~= more);
    } else {
        assert(s[0] == text[0]);
        assert(!ends_quote(s, n));
        assert(s.skip(1) =~= text.skip(1) + seq!['"'] + hash_marks(n) + more);
        lemma_raw(text.skip(1), n, more, depth);
        assert(scan.stride(s) == 1);
        assert(scan.next(s) == scan);
    }
}

proof fn lemma_hash_marks(n: nat, text: Seq<char>, seen: nat, more: Seq<char>, depth: nat)
    requires
        n + seen > 0,
        forall|i: int| 0 <= i < text.len() ==> #[trigger] text[i] != '"',
    ensures
        list_end(
            hash_marks(n) + (seq!['"'] + (text + seq!['"'] + hash_marks(n + seen) + more)),
            Scan { depth, quote: None, hashes: seen },
        ) == later(
            n + 1 + text.len() + 1 + n + seen,
            list_end(more, Scan { depth, quote: None, hashes: 0 }),
        ),
    decreases n,
{
    let scan = Scan { depth, quote: None, hashes: seen };
    let tail = text + seq!['"'] + hash_marks(n + seen) + more;
    let s = hash_marks(n) + (seq!['"'] + tail);
    if n == 0 {
        assert(s[0] == '"');
        assert(s.skip(1) =~= tail);
        assert(scan.next(s) == Scan { depth, quote: Some(seen), hashes: 0 });
        lemma_raw(text, seen, more, depth);
    } else {
        let m = (n - 1) as nat;
        assert(s[0] == '#');
        assert(s.skip(1) =~= hash_marks(m) + (seq!['"'] + tail));
        assert(scan.next(s) == Scan { depth, quote: None, hashes: seen + 1 });
        lemma_hash_marks(m, text, seen + 1, more, depth);
    }
}

proof fn lemma_marked(n: nat, c: char, seen: nat, more: Seq<char>, depth: nat)
    requires
        depth > 0,
        c != '(' && c != ')' && c != '"' && c != '#',
    ensures
        list_end(hash_marks(n) + (seq![c] + more), Scan { depth, quote: None, hashes: seen })
            == later(n + 1, list_end(more, Scan { depth, quote: None, hashes: 0 })),
    decreases n,
{
    let scan = Scan { depth, quote: None, hashes: seen };
    let s = hash_marks(n) + (seq![c] + more);
    if n == 0 {
        assert(s[0] == c);
        assert(s.skip(1) =~= more);
        assert(scan.next(s) == Scan { depth, quote: None, hashes: 0 });
    } else {
        let m = (n - 1) as nat;
        assert(s[0] == '#');
        assert(s.skip(1) =~= hash_marks(m) + (seq![c] + more));
        assert(scan.next(s) == Scan { depth, quote: None, hashes: seen + 1 });
        lemma_marked(m, c, seen + 1, more, depth);
    }
}

proof fn lemma_arguments(args: Seq<Argument>, rest: Seq<char>, open: nat)
    requires
        balanced(args, open),
    ensures
        list_end(
            arguments_text(args) + (seq![')'] + rest),
            Scan { depth: open + 1, quote: None, hashes: 0 },
        ) == Some(arguments_text(args).len() + 1),
    decreases args.len(),
{
    let depth = open + 1;
    let scan = Scan { depth, quote: None, hashes: 0 };
    let tail = seq![')'] + rest;
    let text = arguments_text(args);
    let s = text + tail;
    if args.len() == 0 {
        assert(s =~= tail);
        assert(s[0] == ')');
    } else {
        let a = args[0];
        let rest_text = arguments_text(args.skip(1));
        let more = rest_text + tail;
        assert(s =~= a.text() + more);
        match a {
            Argument::Plain(c) => {
                lemma_arguments(args.skip(1), rest, open);
                assert(s[0] == c);
                assert(s.skip(1) =~= more);
                assert(scan.next(s) == scan);
            },
            Argument::Marked(n, c) => {
                lemma_arguments(args.skip(1), rest, open);
                lemma_marked(n, c, 0, more, depth);
                assert(s =~= hash_marks(n) + (seq![c] + more));
            },
            Argument::Quoted(t) => {
                lemma_arguments(args.skip(1), rest, open);
                assert(s[0] == '"');
                assert(s.skip(1) =~= t + seq!['"'] + more);
                assert(scan.next(s) == Scan { depth, quote: Some(0), hashes: 0 });
                lemma_quoted(t, more, depth);
            },
            Argument::Raw(n, t) => {
                lemma_arguments(args.skip(1), rest, open);
                lemma_hash_marks(n, t, 0, more, depth);
                assert(s =~= hash_marks(n) + (seq!['"'] + (t + seq!['"'] + hash_marks(n) + more)));
            },
            Argument::Opening => {
                lemma_arguments(args.skip(1), rest, open + 1);
                assert(s[0] == '(');
                assert(s.skip(1) =~= more);
                assert(scan.next(s) == Scan { depth: depth + 1, quote: None, hashes: 0 });
            },
            Argument::Closing => {
                lemma_arguments(args.skip(1), rest, (open - 1) as nat);
                assert(s[0] == ')');
                assert(s.skip(1) =~= more);
                assert(scan.next(s) == Scan { depth: open, quote: None, hashes: 0 });
            },
        }
    }
}

/// An attribute with arguments goes up to the parenthesis that closes its list,
/// past those of lists in the list and those in string literals.
pub proof fn law_arguments_are_attribute(word: Seq<char>, args: Seq<Argument>)
    requires
        forall|i: int|
            0 <= i < word.len() ==> !white_space(#[trigger] word[i]) && word[i] != '(',
        balanced(args, 0),
    ensures
        is_attribute(seq!['@'] + word + seq!['('] + arguments_text(args) + seq![')']),
{
    let front = seq!['@'] + word;
    let text = arguments_text(args);
    let a = front + seq!['('] + text + seq![')'];
    let one = a.push(' ');
    let p = Pattern::WordEnd;
    let n = front.len() as int;
    assert forall|i: int| 0 <= i < n implies !p.admits(#[trigger] one[i]) by {
        if i > 0 {
            assert(one[i] == word[i - 1]);
        }
    }
    assert(one[n] == '(');
    lemma_first_match_is(one, p, n);
    let list = one.skip(n);
    assert(list[0] == '(');
    assert(list.skip(1) =~= text + (seq![')'] + seq![' ']));
    lemma_arguments(args, seq![' '], 0);
    assert(Scan::start().next(list) == Scan { depth: 1, quote: None, hashes: 0 });
    assert(list_end(list, Scan::start()) == Some((text.len() + 2) as nat));
}

proof fn lemma_never_closed(s: Seq<char>, scan: Scan)
    requires
        scan.quote is None,
        forall|i: int| 0 <= i < s.len() ==> #[trigger] s[i] != ')' && s[i] != '"',
    ensures
        list_end(s, scan) is None,
    decreases s.len(),
{
    if s.len() > 0 {
        let t = s.skip(1);
        assert forall|i: int| 0 <= i < t.len() implies #[trigger] t[i] != ')' && t[i] != '"' by {
            assert(t[i] == s[i + 1]);
        }
        lemma_never_closed(t, scan.next(s));
    }
}

/// An attribute whose list nothing closes goes up to the end of its line.
pub proof fn law_unclosed_taken_off(word: Seq<char>, args: Seq<char>, decl: Seq<char>)
    requires
        forall|i: int|
            0 <= i < word.len() ==> !white_space(#[trigger] word[i]) && word[i] != '(' && word[i]
                != ')' && word[i] != '"',
        forall|i: int|
            0 <= i < args.len() ==> #[trigger] args[i] != ')' && args[i] != '"' && args[i] != '\n',
        forall|i: int| 0 <= i < decl.len() ==> #[trigger] decl[i] != ')' && decl[i] != '"',
        decl.len() > 0,
        'a' <= decl[0] && decl[0] <= 'z',
    ensures
        without_attributes(seq!['@'] + word + seq!['('] + args + seq!['\n'] + decl) == decl,
{
    let front = seq!['@'] + word;
    let line = front + seq!['('] + args;
    let s = line + seq!['\n'] + decl;
    let n = front.len() as int;
    let end = line.len() as int;
    let after = seq!['\n'] + decl;
    assert forall|i: int| 0 <= i < n implies !Pattern::WordEnd.admits(#[trigger] s[i]) by {
        if i > 0 {
            assert(s[i] == word[i - 1]);
        }
    }
    assert(s[n] == '(');
    lemma_first_match_is(s, Pattern::WordEnd, n);
    assert forall|i: int| 0 <= i < end implies !Pattern::Char('\n').admits(#[trigger] s[i]) by {
        if n < i {
            assert(s[i] == args[i - n - 1]);
        } else if 0 < i < n {
            assert(s[i] == word[i - 1]);
            assert(white_space('\n'));
        }
    }
    assert(s[end] == '\n');
    lemma_first_match_is(s, Pattern::Char('\n'), end);
    let list = s.skip(n);
    assert forall|i: int| 0 <= i < list.len() implies #[trigger] list[i] != ')' && list[i]
        != '"' by {
        assert(list[i] == s[i + n]);
        if 0 < i < end - n {
            assert(list[i] == args[i - 1]);
        } else if end - n < i {
            assert(list[i] == decl[i - 1 - (end - n)]);
        }
    }
    lemma_never_closed(list, Scan::start());
    assert(attribute_len(s) == end);
    assert(s.skip(end) =~= after);
    lemma_down_to(s, after, decl);
}

/// What follows an attribute on its line goes with it, if no declaration starts
/// there.
pub proof fn law_remark_taken_off(
    word: Seq<char>,
    space: Seq<char>,
    remark: Seq<char>,
    decl: Seq<char>,
)
    requires
        forall|i: int|
            0 <= i < word.len() ==> !white_space(#[trigger] word[i]) && word[i] != '(',
        space.len() > 0,
        forall|i: int|
            0 <= i < space.len() ==> white_space(#[trigger] space[i]) && space[i] != '\n',
        remark.len() > 0,
        ('!' <= remark[0] && remark[0] <= '?') || ('[' <= remark[0] && remark[0] <= '^') || ('{'
            <= remark[0] && remark[0] <= '~'),
        forall|i: int| 0 <= i < remark.len() ==> #[trigger] remark[i] != '\n',
        decl.len() > 0,
        'a' <= decl[0] && decl[0] <= 'z',
    ensures
        without_attributes(seq!['@'] + word + space + remark + seq!['\n'] + decl) == decl,
{
    let front = seq!['@'] + word;
    let after = seq!['\n'] + decl;
    let tail = remark + after;
    let s = front + space + remark + seq!['\n'] + decl;
    let n = front.len() as int;
    assert(s =~= front + (space + tail));
    assert forall|i: int| 0 <= i < n implies !Pattern::WordEnd.admits(#[trigger] s[i]) by {
        if i > 0 {
            assert(s[i] == word[i - 1]);
        }
    }
    assert(s[n] == space[0]);
    lemma_first_match_is(s, Pattern::WordEnd, n);
    assert(attribute_len(s) == n);
    assert(s.skip(n) =~= space + tail);
    lemma_indent_taken_off(space, tail);
    assert(tail[0] == remark[0]);
    let m = remark.len() as int;
    assert forall|i: int| 0 <= i < m implies !Pattern::Char('\n').admits(#[trigger] tail[i]) by {
        assert(tail[i] == remark[i]);
    }
    assert(tail[m] == '\n');
    lemma_first_match_is(tail, Pattern::Char('\n'), m);
    assert(tail.skip(m) =~= after);
    lemma_at_line_feed(after, decl);
    assert(trimmed_start(s) == s);
}

proof fn lemma_indent_taken_off(space: Seq<char>, tail: Seq<char>)
    requires
        forall|i: int|
            0 <= i < space.len() ==> white_space(#[trigger] space[i]) && space[i] != '\n',
        tail.len() > 0,
        !white_space(tail[0]),
    ensures
        unindented(space + tail) == tail,
    decreases space.len(),
{
    let s = space + tail;
    if space.len() == 0 {
        assert(s =~= tail);
    } else {
        let more = space.skip(1);
        assert(s[0] == space[0]);
        assert(s.skip(1) =~= more + tail);
        assert forall|i: int| 0 <= i < more.len() implies white_space(#[trigger] more[i]) && more[i]
            != '\n' by {
            assert(more[i] == space[i + 1]);
        }
        lemma_indent_taken_off(more, tail);
    }
}

proof fn lemma_at_line_feed(after: Seq<char>, decl: Seq<char>)
    requires
        after == seq!['\n'] + decl,
        decl.len() > 0,
        'a' <= decl[0] && decl[0] <= 'z',
    ensures
        without_attributes(after) == decl,
{
    assert(after[0] == '\n');
    assert(after.skip(1) =~= decl);
    assert(trimmed_start(decl) == decl);
    assert(trimmed_start(after) == decl);
}

proof fn lemma_down_to(s: Seq<char>, after: Seq<char>, decl: Seq<char>)
    requires
        s.len() > 0,
        s[0] == '@',
        s.skip(attribute_len(s) as int) == after,
        after == seq!['\n'] + decl,
        decl.len() > 0,
        'a' <= decl[0] && decl[0] <= 'z',
    ensures
        without_attributes(s) == decl,
{
    assert(after[0] == '\n');
    assert(unindented(after) == after);
    lemma_first_match_is(after, Pattern::Char('\n'), 0);
    assert(after.skip(0) =~= after);
    assert(trimmed_start(s) == s);
    lemma_at_line_feed(after, decl);
}

} // verus!
