//! Short names of declarations, for navigation and search.

use vstd::prelude::*;
use vstd::slice::slice_subrange;

use crate::attribute_laws::{goes_with, is_attribute, law_attribute_taken_off};
use crate::attributes::{strip_attributes, without_attributes};
use crate::text::{
    chars_of, first_line, first_match, head_line, join_words, joined, lemma_first_match, pieces,
    position, same_text, split, split_list, string_of, trim, trimmed, word_list, words, Pattern,
};

verus! {

/// Whether a word of a declaration stands before its kind.
pub open spec fn modifier(w: Seq<char>) -> bool {
    ||| w == "public"@
    ||| w == "open"@
    ||| w == "package"@
    ||| w == "internal"@
    ||| w == "fileprivate"@
    ||| w == "private"@
    ||| w == "static"@
    ||| w == "class"@
    ||| w == "final"@
    ||| w == "override"@
    ||| w == "mutating"@
    ||| w == "nonmutating"@
    ||| w == "lazy"@
    ||| w == "weak"@
    ||| w == "unowned"@
    ||| w == "dynamic"@
    ||| w == "convenience"@
    ||| w == "required"@
    ||| w == "indirect"@
    ||| w == "async"@
    ||| w == "throws"@
    ||| w == "rethrows"@
    ||| w == "prefix"@
    ||| w == "postfix"@
    ||| w == "infix"@
}

fn is_modifier(word: &[char]) -> (r: bool)
    ensures
        r == modifier(word@),
{
    let word = string_of(word);
    let w = word.as_str();
    same_text(w, "public") || same_text(w, "open") || same_text(w, "package") || same_text(
        w,
        "internal",
    ) || same_text(w, "fileprivate") || same_text(w, "private") || same_text(w, "static")
        || same_text(w, "class") || same_text(w, "final") || same_text(w, "override") || same_text(
        w,
        "mutating",
    ) || same_text(w, "nonmutating") || same_text(w, "lazy") || same_text(w, "weak") || same_text(
        w,
        "unowned",
    ) || same_text(w, "dynamic") || same_text(w, "convenience") || same_text(w, "required")
        || same_text(w, "indirect") || same_text(w, "async") || same_text(w, "throws") || same_text(
        w,
        "rethrows",
    ) || same_text(w, "prefix") || same_text(w, "postfix") || same_text(w, "infix")
}

/// The words from the first that does not start with `@` on.
pub open spec fn skip_attributes(w: Seq<Seq<char>>) -> Seq<Seq<char>>
    decreases w.len(),
{
    if w.len() > 0 && w[0].len() > 0 && w[0][0] == '@' {
        skip_attributes(w.skip(1))
    } else {
        w
    }
}

/// The words from the first that is not a modifier on.
pub open spec fn skip_modifiers(w: Seq<Seq<char>>) -> Seq<Seq<char>>
    decreases w.len(),
{
    if w.len() > 0 && modifier(w[0]) {
        skip_modifiers(w.skip(1))
    } else {
        w
    }
}

/// The first stretch of a text from a `(` to the next `)`; nothing where
/// there is none.
pub open spec fn signature(s: Seq<char>) -> Seq<char> {
    let open = first_match(s, Pattern::Char('(')) as int;
    let close = first_match(s.skip(open), Pattern::Char(')')) as int;
    if open < s.len() && open + close < s.len() {
        s.subrange(open, open + close + 1)
    } else {
        seq![]
    }
}

/// The label of a parameter: what it starts with, up to a colon or white space.
pub open spec fn label(parameter: Seq<char>) -> Seq<char> {
    let p = trimmed(parameter);
    p.take(first_match(p, Pattern::LabelEnd) as int)
}

/// The labels of parameters, each with a colon after it.
pub open spec fn labels(parameters: Seq<Seq<char>>) -> Seq<char>
    decreases parameters.len(),
{
    if parameters.len() == 0 {
        seq![]
    } else {
        labels(parameters.drop_last()) + label(parameters.last()) + ":"@
    }
}

/// A parameter list reduced to its labels: `(x: Int, y: Int)` is `(x:y:)`.
pub open spec fn abbreviated(sig: Seq<char>) -> Seq<char> {
    if sig.len() == 0 || sig[0] != '(' {
        seq![]
    } else {
        let inner = sig.subrange(1, sig.len() - 1);
        if trimmed(inner).len() == 0 {
            "()"@
        } else {
            "("@ + labels(split_list(inner, Pattern::Char(','))) + ")"@
        }
    }
}

/// The name for a declaration whose words, from its kind on, are `w`: the
/// kind, the identifier and the labels of the parameters.
pub open spec fn name_of_words(w: Seq<Seq<char>>) -> Seq<char> {
    let kind = if w.len() > 0 {
        w[0]
    } else {
        seq![]
    };
    let rest = joined(w.skip(1), seq![' ']);
    let ident = rest.take(first_match(rest, Pattern::NameEnd) as int);
    if w.len() == 0 || ident.len() == 0 {
        kind
    } else {
        trimmed(kind + " "@ + ident + abbreviated(signature(rest)))
    }
}

/// The words that a declaration is named after: those of the first line of
/// what is left behind the attributes that it starts with. Where nothing is
/// left, those of its own first line, without the words at its start that start
/// with `@`.
pub open spec fn naming_words(decl: Seq<char>) -> Seq<Seq<char>> {
    if without_attributes(decl).len() > 0 {
        word_list(first_line(without_attributes(decl)))
    } else {
        skip_attributes(word_list(trimmed(first_line(decl))))
    }
}

/// The short name of a declaration.
pub open spec fn short_name(decl: Seq<char>) -> Seq<char> {
    name_of_words(skip_modifiers(naming_words(decl)))
}

/// A parameter list reduced to its labels: `(x: Int, y: Int)` is `(x:y:)`.
pub fn abbreviate_signature(sig: &[char]) -> (r: String)
    requires
        sig@.len() > 0 && sig@[0] == '(' ==> sig@.len() > 1 && sig@.last() <= '\u{7F}',
    ensures
        r@ == abbreviated(sig@),
{
    if sig.len() == 0 || sig[0] != '(' {
        return String::new();
    }
    let inner = slice_subrange(sig, 1, sig.len() - 1);
    if trim(inner).len() == 0 {
        return "()".to_string();
    }
    let parts = split(inner, Pattern::Char(','));
    let mut out = "(".to_string();
    let ghost ps = pieces(parts@);
    for i in 0..parts.len()
        invariant
            ps == pieces(parts@),
            out@ == "("@ + labels(ps.take(i as int)),
    {
        let p = trim(parts[i]);
        let first = slice_subrange(p, 0, position(p, Pattern::LabelEnd));
        assert(ps.take(i as int + 1).drop_last() =~= ps.take(i as int));
        assert(first@ =~= label(ps[i as int]));
        out.push_str(string_of(first).as_str());
        out.push_str(":");
        assert(out@ =~= "("@ + labels(ps.take(i as int + 1)));
    }
    assert(ps.take(parts@.len() as int) =~= ps);
    out.push_str(")");
    out
}

/// The first stretch of a text from a `(` to the next `)`.
fn find_signature(s: &[char]) -> (r: &[char])
    ensures
        r@ == signature(s@),
        r@.len() > 0 ==> r@.len() > 1 && r@.last() == ')',
{
    let open = position(s, Pattern::Char('('));
    if open < s.len() {
        let tail = slice_subrange(s, open, s.len());
        assert(tail@ =~= s@.skip(open as int));
        let close = position(tail, Pattern::Char(')'));
        proof {
            lemma_first_match(s@, Pattern::Char('('));
            lemma_first_match(tail@, Pattern::Char(')'));
            assert(tail@[0] == '(');
        }
        if close < tail.len() {
            let found = slice_subrange(tail, 0, close + 1);
            assert(found@ =~= s@.subrange(open as int, open as int + close as int + 1));
            return found;
        }
    }
    slice_subrange(s, 0, 0)
}

/// The words of a declaration, and where those start that it is named after.
fn find_words(decl: &[char]) -> (r: (Vec<&[char]>, usize))
    ensures
        r.1 <= r.0@.len(),
        pieces(r.0@).skip(r.1 as int) == naming_words(decl@),
{
    let rest = strip_attributes(decl);
    if rest.len() > 0 {
        let all = words(head_line(rest));
        assert(pieces(all@).skip(0) =~= pieces(all@));
        return (all, 0);
    }
    let all = words(trim(head_line(decl)));
    let ghost ws = pieces(all@);
    let mut i: usize = 0;
    assert(ws.skip(0) =~= ws);
    while i < all.len() && all[i].len() > 0 && all[i][0] == '@'
        invariant
            ws == pieces(all@),
            i <= all@.len(),
            skip_attributes(ws) == skip_attributes(ws.skip(i as int)),
        decreases all@.len() - i,
    {
        assert(ws.skip(i as int)[0] == all@[i as int]@);
        assert(ws.skip(i as int).skip(1) =~= ws.skip(i as int + 1));
        i += 1;
    }
    if i < all.len() {
        assert(ws.skip(i as int)[0] == all@[i as int]@);
    }
    (all, i)
}

/// The short name of a declaration.
pub fn symbol_name(decl: &str) -> (r: String)
    ensures
        r@ == short_name(decl@),
{
    let decl = chars_of(decl);
    let (all, start) = find_words(decl.as_slice());
    let ghost ws = pieces(all@);
    let ghost named = ws.skip(start as int);
    let mut i: usize = start;
    while i < all.len() && is_modifier(all[i])
        invariant
            ws == pieces(all@),
            i <= all@.len(),
            skip_modifiers(named) == skip_modifiers(ws.skip(i as int)),
        decreases all@.len() - i,
    {
        assert(ws.skip(i as int)[0] == all@[i as int]@);
        assert(ws.skip(i as int).skip(1) =~= ws.skip(i as int + 1));
        i += 1;
    }
    if i < all.len() {
        assert(ws.skip(i as int)[0] == all@[i as int]@);
    }
    let ghost w = ws.skip(i as int);
    assert(skip_modifiers(named) == w);
    if i == all.len() {
        let none = String::new();
        assert(none@ =~= name_of_words(w));
        return none;
    }
    let kind = string_of(all[i]);
    assert(kind@ == w[0]);
    let rest = join_words(&all, i + 1);
    assert(ws.skip(i as int + 1) =~= w.skip(1));
    let ident = slice_subrange(rest.as_slice(), 0, position(rest.as_slice(), Pattern::NameEnd));
    assert(ident@ =~= rest@.take(first_match(rest@, Pattern::NameEnd) as int));
    if ident.len() == 0 {
        return kind;
    }
    let mut name = kind;
    name.push_str(" ");
    name.push_str(string_of(ident).as_str());
    name.push_str(abbreviate_signature(find_signature(rest.as_slice())).as_str());
    let name = chars_of(name.as_str());
    string_of(trim(name.as_slice()))
}

/// An attribute before a declaration makes no difference to its short name, on
/// the same line or on one of its own, as long as there is more to the
/// declaration than attributes.
pub proof fn law_name_behind_attribute(attribute: Seq<char>, space: Seq<char>, decl: Seq<char>)
    requires
        is_attribute(attribute),
        goes_with(space, decl),
        without_attributes(decl).len() > 0,
    ensures
        short_name(attribute + space + decl) == short_name(decl),
{
    law_attribute_taken_off(attribute, space, decl);
}

} // verus!
