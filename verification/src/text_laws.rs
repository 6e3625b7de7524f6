//! What holds of trimming, lines, words, joining and numbers.

use vstd::prelude::*;

use crate::text::{
    decimal_digits, first_line, joined, lemma_first_match_is, line_list, occurs_at, occurs_in,
    split_list, trimmed, trimmed_end, trimmed_start, white_space, word_list, Pattern,
};

verus! {

/// The white space characters of Unicode.
pub open spec fn white_space_characters() -> Seq<char> {
    seq![
        '\t', '\n', '\u{B}', '\u{C}', '\r', ' ', '\u{85}', '\u{A0}', '\u{1680}', '\u{2000}',
        '\u{2001}', '\u{2002}', '\u{2003}', '\u{2004}', '\u{2005}', '\u{2006}', '\u{2007}',
        '\u{2008}', '\u{2009}', '\u{200A}', '\u{2028}', '\u{2029}', '\u{202F}', '\u{205F}',
        '\u{3000}',
    ]
}

/// White space is what Unicode counts as white space.
pub proof fn law_white_space_characters(c: char)
    ensures
        white_space(c) <==> white_space_characters().contains(c),
{
    let w = white_space_characters();
    if white_space(c) {
        let i: int = if c <= '\r' {
            c as int - 9
        } else if c == ' ' {
            5
        } else if c == '\u{85}' {
            6
        } else if c == '\u{A0}' {
            7
        } else if c == '\u{1680}' {
            8
        } else if c <= '\u{200A}' {
            9 + c as int - 0x2000
        } else if c == '\u{2028}' {
            20
        } else if c == '\u{2029}' {
            21
        } else if c == '\u{202F}' {
            22
        } else if c == '\u{205F}' {
            23
        } else {
            24
        };
        assert(w[i] == c);
    }
    if w.contains(c) {
        let i = choose|i: int| 0 <= i < w.len() && w[i] == c;
        assert(0 <= i < 25);
    }
}

/// Whether a text is made of white space.
pub open spec fn spaces(s: Seq<char>) -> bool {
    forall|i: int| 0 <= i < s.len() ==> white_space(#[trigger] s[i])
}

/// Whether a text holds no white space.
pub open spec fn a_word(s: Seq<char>) -> bool {
    s.len() > 0 && forall|i: int| 0 <= i < s.len() ==> !white_space(#[trigger] s[i])
}

proof fn lemma_start_off(a: Seq<char>, t: Seq<char>)
    requires
        spaces(a),
        t.len() > 0 ==> !white_space(t[0]),
    ensures
        trimmed_start(a + t) == t,
    decreases a.len(),
{
    if a.len() == 0 {
        assert(a + t =~= t);
    } else {
        assert(white_space(a[0]));
        assert((a + t)[0] == a[0]);
        assert((a + t).skip(1) =~= a.skip(1) + t);
        lemma_start_off(a.skip(1), t);
    }
}

proof fn lemma_end_off(t: Seq<char>, b: Seq<char>)
    requires
        spaces(b),
        t.len() > 0 ==> !white_space(t.last()),
    ensures
        trimmed_end(t + b) == t,
    decreases b.len(),
{
    if b.len() == 0 {
        assert(t + b =~= t);
    } else {
        assert(white_space(b[b.len() - 1]));
        assert((t + b).last() == b.last());
        assert((t + b).drop_last() =~= t + b.drop_last());
        lemma_end_off(t, b.drop_last());
    }
}

/// Trimming takes the white space off both ends of a text, all of it and
/// nothing else.
pub proof fn law_trimmed(a: Seq<char>, t: Seq<char>, b: Seq<char>)
    requires
        spaces(a),
        spaces(b),
        t.len() > 0 ==> !white_space(t[0]) && !white_space(t.last()),
    ensures
        trimmed(a + t + b) == t,
        trimmed_start(a + t) == t,
        trimmed_end(t + b) == t,
{
    lemma_start_off(a, t);
    lemma_end_off(t, b);
    if t.len() == 0 {
        assert(t + b =~= b);
        assert(a + t + b =~= a + b);
        let none = Seq::<char>::empty();
        assert(t =~= none);
        assert(spaces(a + b)) by {
            assert forall|i: int| 0 <= i < (a + b).len() implies white_space(
                #[trigger] (a + b)[i],
            ) by {
                if i < a.len() {
                    assert((a + b)[i] == a[i]);
                } else {
                    assert((a + b)[i] == b[i - a.len()]);
                }
            }
        }
        lemma_start_off(a + b, none);
        assert(a + b + none =~= a + b);
        assert(trimmed(a + b) == trimmed_end(none));
    } else {
        assert((t + b)[0] == t[0]);
        assert(a + t + b =~= a + (t + b));
        lemma_start_off(a, t + b);
    }
}

/// A line feed ends a line, and so does a carriage return with a line feed
/// behind it; neither is part of the line. The last line needs no end.
pub proof fn law_lines(line: Seq<char>, rest: Seq<char>)
    requires
        !line.contains('\n'),
        line.len() > 0 ==> line.last() != '\r',
    ensures
        line_list(line + seq!['\n'] + rest) == seq![line] + line_list(rest),
        line_list(line + seq!['\r', '\n'] + rest) == seq![line] + line_list(rest),
        line.len() > 0 ==> line_list(line) == seq![line],
        line_list(Seq::<char>::empty()) == Seq::<Seq<char>>::empty(),
        first_line(line + seq!['\n'] + rest) == line,
        first_line(line + seq!['\r', '\n'] + rest) == line,
        first_line(line) == line,
{
    let p = Pattern::Char('\n');
    assert forall|i: int| 0 <= i < line.len() implies !p.admits(#[trigger] line[i]) by {
        assert(line.contains(line[i]));
    }
    let n = line.len() as int;
    let a = line + seq!['\n'] + rest;
    assert forall|i: int| 0 <= i < n implies !p.admits(#[trigger] a[i]) by {
        assert(a[i] == line[i]);
    }
    assert(a[n] == '\n');
    lemma_first_match_is(a, p, n);
    assert(a.take(n) =~= line);
    assert(a.skip(n + 1) =~= rest);
    let b = line + seq!['\r', '\n'] + rest;
    assert forall|i: int| 0 <= i < n + 1 implies !p.admits(#[trigger] b[i]) by {
        if i < n {
            assert(b[i] == line[i]);
        }
    }
    assert(b[n + 1] == '\n');
    lemma_first_match_is(b, p, n + 1);
    assert(b.take(n + 1) =~= line.push('\r'));
    assert(b.take(n + 1).drop_last() =~= line);
    assert(b.skip(n + 2) =~= rest);
    lemma_first_match_is(line, p, n);
    assert((seq![line] + line_list(rest))[0] == line);
    if n == 0 {
        assert(line =~= seq![]);
    }
}

/// Words are what stands between white space.
pub proof fn law_words(word: Seq<char>, space: Seq<char>, rest: Seq<char>)
    requires
        a_word(word),
        spaces(space),
    ensures
        word_list(space + rest) == word_list(rest),
        space.len() > 0 ==> word_list(word + space + rest) == seq![word] + word_list(rest),
        word_list(word) == seq![word],
        word_list(Seq::<char>::empty()) == Seq::<Seq<char>>::empty(),
    decreases space.len(),
{
    let p = Pattern::Space;
    if space.len() == 0 {
        assert(space + rest =~= rest);
    } else {
        assert(white_space(space[0]));
        assert((space + rest)[0] == space[0]);
        assert((space + rest).skip(1) =~= space.skip(1) + rest);
        law_words(word, space.skip(1), rest);
        let s = word + space + rest;
        let n = word.len() as int;
        assert forall|i: int| 0 <= i < n implies !p.admits(#[trigger] s[i]) by {
            assert(s[i] == word[i]);
        }
        assert(s[n] == space[0]);
        lemma_first_match_is(s, p, n);
        assert(s[0] == word[0]);
        assert(s.take(n) =~= word);
        assert(s.skip(n) =~= space + rest);
    }
    assert forall|i: int| 0 <= i < word.len() implies !p.admits(#[trigger] word[i]) by {}
    lemma_first_match_is(word, p, word.len() as int);
    assert(!white_space(word[0]));
    assert(word.take(word.len() as int) =~= word);
    assert(word.skip(word.len() as int) =~= Seq::<char>::empty());
    assert(word_list(word.skip(word.len() as int)) =~= Seq::<Seq<char>>::empty());
    assert(word_list(word) =~= seq![word]);
}

/// A text is split at each of the characters that separate its parts.
pub proof fn law_split(part: Seq<char>, c: char, rest: Seq<char>)
    requires
        !part.contains(c),
    ensures
        split_list(part + seq![c] + rest, Pattern::Char(c)) == seq![part] + split_list(
            rest,
            Pattern::Char(c),
        ),
        split_list(part, Pattern::Char(c)) == seq![part],
{
    let p = Pattern::Char(c);
    let n = part.len() as int;
    assert forall|i: int| 0 <= i < n implies !p.admits(#[trigger] part[i]) by {
        assert(part.contains(part[i]));
    }
    let s = part + seq![c] + rest;
    assert forall|i: int| 0 <= i < n implies !p.admits(#[trigger] s[i]) by {
        assert(s[i] == part[i]);
    }
    assert(s[n] == c);
    lemma_first_match_is(s, p, n);
    lemma_first_match_is(part, p, n);
    assert(s.take(n) =~= part);
    assert(s.skip(n + 1) =~= rest);
}

/// Joined texts follow each other, with the separator between two of them and
/// nowhere else.
pub proof fn law_joined(parts: Seq<Seq<char>>, x: Seq<char>, separator: Seq<char>)
    ensures
        joined(Seq::<Seq<char>>::empty(), separator) == Seq::<char>::empty(),
        joined(seq![x], separator) == x,
        parts.len() > 0 ==> joined(parts.push(x), separator) == joined(parts, separator) + separator
            + x,
{
    assert(parts.push(x).drop_last() =~= parts);
}

pub proof fn lemma_joined_front(w: Seq<char>, parts: Seq<Seq<char>>, separator: Seq<char>)
    requires
        parts.len() > 0,
    ensures
        joined(seq![w] + parts, separator) == w + separator + joined(parts, separator),
    decreases parts.len(),
{
    let all = seq![w] + parts;
    assert(all.last() == parts.last());
    assert(all.drop_last() =~= seq![w] + parts.drop_last());
    if parts.len() == 1 {
        assert(all.drop_last() =~= seq![w]);
        assert(joined(all.drop_last(), separator) == w);
        assert(joined(all, separator) == joined(all.drop_last(), separator) + separator
            + all.last());
    } else {
        lemma_joined_front(w, parts.drop_last(), separator);
        assert(joined(all, separator) =~= w + separator + joined(parts, separator));
    }
}

/// One text occurs in another if that is the first one with something before it
/// and something behind it.
pub proof fn law_occurs(s: Seq<char>, a: Seq<char>, p: Seq<char>, b: Seq<char>)
    ensures
        occurs_in(a + p + b, p),
        occurs_in(s, p) ==> exists|x: Seq<char>, y: Seq<char>| s == #[trigger] (x + p + y),
{
    let t = a + p + b;
    assert(t.subrange(a.len() as int, a.len() as int + p.len()) =~= p);
    assert(occurs_at(t, p, a.len() as int));
    if occurs_in(s, p) {
        let at = choose|at: int| occurs_at(s, p, at);
        let x = s.take(at);
        let y = s.skip(at + p.len());
        assert(s =~= x + p + y);
    }
}

/// The number that a text of digits stands for.
pub open spec fn value_of(s: Seq<char>) -> nat
    decreases s.len(),
{
    if s.len() == 0 {
        0
    } else {
        10 * value_of(s.drop_last()) + (s.last() as nat - '0' as nat) as nat
    }
}

/// A number in decimal notation is digits, without zeros before it, that stand
/// for the number.
pub proof fn law_decimal(n: nat)
    ensures
        value_of(decimal_digits(n)) == n,
        decimal_digits(n).len() > 0,
        forall|i: int|
            0 <= i < decimal_digits(n).len() ==> '0' <= #[trigger] decimal_digits(n)[i]
                && decimal_digits(n)[i] <= '9',
        n > 0 ==> decimal_digits(n)[0] != '0',
        n == 0 ==> decimal_digits(n) == seq!['0'],
    decreases n,
{
    let s = decimal_digits(n);
    if n < 10 {
        assert(s.drop_last() =~= Seq::<char>::empty());
        assert(value_of(s.drop_last()) == 0);
    } else {
        let h = decimal_digits(n / 10);
        law_decimal(n / 10);
        assert(s.drop_last() =~= h);
        assert(s[0] == h[0]);
        assert forall|i: int| 0 <= i < s.len() implies '0' <= #[trigger] s[i] && s[i] <= '9' by {
            if i < h.len() {
                assert(s[i] == h[i]);
            }
        }
    }
}

} // verus!
