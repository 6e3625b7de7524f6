//! What the short name of a declaration is, in terms of its text.

use vstd::prelude::*;

use crate::attribute_laws::{law_call_is_attribute, law_word_is_attribute};
use crate::attributes::{attribute_len, line_len, unindented, without_attributes};
use crate::identity_laws::{evenly_spaced, lemma_words_joined};
use crate::symbol_name::{
    abbreviated, label, labels, law_name_behind_attribute, modifier, name_of_words, naming_words,
    short_name, signature, skip_attributes, skip_modifiers,
};
use crate::text::{
    first_match, joined, lemma_first_match_is, split_list, trimmed, trimmed_start, white_space,
    word_list, Pattern,
};
use crate::text_laws::{a_word, law_lines, law_split, law_trimmed, law_words, spaces};

verus! {

/// The words that may stand before the kind of a declaration.
pub open spec fn modifiers() -> Seq<Seq<char>> {
    seq![
        "public"@,
        "open"@,
        "package"@,
        "internal"@,
        "fileprivate"@,
        "private"@,
        "static"@,
        "class"@,
        "final"@,
        "override"@,
        "mutating"@,
        "nonmutating"@,
        "lazy"@,
        "weak"@,
        "unowned"@,
        "dynamic"@,
        "convenience"@,
        "required"@,
        "indirect"@,
        "async"@,
        "throws"@,
        "rethrows"@,
        "prefix"@,
        "postfix"@,
        "infix"@,
    ]
}

proof fn lemma_modifiers(w: Seq<char>)
    ensures
        modifier(w) <==> modifiers().contains(w),
{
    let m = modifiers();
    if modifiers().contains(w) {
        let i = choose|i: int| 0 <= i < m.len() && m[i] == w;
        assert(0 <= i < 25);
    }
    if modifier(w) {
        assert(m[0] == "public"@ && m[1] == "open"@ && m[2] == "package"@ && m[3] == "internal"@);
        assert(m[4] == "fileprivate"@ && m[5] == "private"@ && m[6] == "static"@);
        assert(m[7] == "class"@ && m[8] == "final"@ && m[9] == "override"@ && m[10] == "mutating"@);
        assert(m[11] == "nonmutating"@ && m[12] == "lazy"@ && m[13] == "weak"@);
        assert(m[14] == "unowned"@ && m[15] == "dynamic"@ && m[16] == "convenience"@);
        assert(m[17] == "required"@ && m[18] == "indirect"@ && m[19] == "async"@);
        assert(m[20] == "throws"@ && m[21] == "rethrows"@ && m[22] == "prefix"@);
        assert(m[23] == "postfix"@ && m[24] == "infix"@);
    }
}

/// Whether a text is the text of a declaration in one line, with single spaces
/// between its words, that starts with a small letter.
pub open spec fn one_liner(decl: Seq<char>) -> bool {
    evenly_spaced(decl) && decl.len() > 0 && 'a' <= decl[0] && decl[0] <= 'z'
}

proof fn lemma_naming(decl: Seq<char>)
    requires
        one_liner(decl),
    ensures
        naming_words(decl) == word_list(decl),
{
    assert(without_attributes(decl) == decl);
    assert(!decl.contains('\n')) by {
        if decl.contains('\n') {
            let i = choose|i: int| 0 <= i < decl.len() && decl[i] == '\n';
            assert(white_space(decl[i]));
        }
    }
    assert(decl.last() != '\r');
    law_lines(decl, seq![]);
}

/// The short name of a declaration starts with its kind, followed by its
/// identifier and the labels of its parameters. The identifier goes up to a
/// parenthesis, a colon, an angle bracket, an equals sign, a brace or a space.
/// Where there is none, the kind is all.
proof fn lemma_name(kind: Seq<char>, more: Seq<char>)
    requires
        a_word(kind),
        !modifiers().contains(kind),
        one_liner(kind + seq![' '] + more),
        more.len() > 0,
    ensures
        ({
            let ident = more.take(first_match(more, Pattern::NameEnd) as int);
            short_name(kind + seq![' '] + more) == if ident.len() == 0 {
                kind
            } else {
                trimmed(kind + seq![' '] + ident + abbreviated(signature(more)))
            }
        }),
{
    let decl = kind + seq![' '] + more;
    let space = seq![' '];
    let k = kind.len() as int;
    lemma_naming(decl);
    law_words(kind, space, more);
    lemma_modifiers(kind);
    assert(evenly_spaced(more)) by {
        assert(decl[k] == ' ');
        assert(decl[k + 1] == more[0]);
        assert(decl.last() == more.last());
        assert forall|i: int| 0 <= i < more.len() && white_space(#[trigger] more[i]) implies more[i]
            == ' ' by {
            assert(more[i] == decl[k + 1 + i]);
        }
        assert forall|i: int| 0 <= i < more.len() - 1 && white_space(#[trigger] more[i]) implies
            !white_space(more[i + 1]) by {
            assert(more[i] == decl[k + 1 + i] && more[i + 1] == decl[k + 1 + i + 1]);
        }
    }
    lemma_words_joined(more);
    let w = word_list(decl);
    assert(w == seq![kind] + word_list(more));
    assert(w[0] == kind);
    assert(skip_modifiers(w) == w);
    assert(w.skip(1) =~= word_list(more));
    reveal_strlit(" ");
    assert(" "@ =~= space);
}

/// Whether a text ends no identifier.
pub open spec fn within_name(s: Seq<char>) -> bool {
    forall|i: int|
        0 <= i < s.len() ==> #[trigger] s[i] != '(' && s[i] != ':' && s[i] != '<' && s[i] != '='
            && s[i] != '{' && !white_space(s[i])
}

/// Whether a text starts with what ends an identifier, or is empty.
pub open spec fn behind_name(s: Seq<char>) -> bool {
    s.len() > 0 ==> s[0] == '(' || s[0] == ':' || s[0] == '<' || s[0] == '=' || s[0] == '{'
        || white_space(s[0])
}

proof fn lemma_ident(ident: Seq<char>, tail: Seq<char>)
    requires
        within_name(ident),
        behind_name(tail),
    ensures
        first_match(ident + tail, Pattern::NameEnd) == ident.len(),
        (ident + tail).take(ident.len() as int) == ident,
{
    let s = ident + tail;
    assert forall|i: int| 0 <= i < ident.len() implies !Pattern::NameEnd.admits(#[trigger] s[i]) by {
        assert(s[i] == ident[i]);
    }
    if tail.len() > 0 {
        assert(s[ident.len() as int] == tail[0]);
    }
    lemma_first_match_is(s, Pattern::NameEnd, ident.len() as int);
    assert(s.take(ident.len() as int) =~= ident);
}

/// Without parentheses, the short name of a declaration is its kind and its
/// identifier, whatever follows that.
pub proof fn law_name_without_parameters(kind: Seq<char>, ident: Seq<char>, tail: Seq<char>)
    requires
        a_word(kind),
        !modifiers().contains(kind),
        ident.len() > 0,
        within_name(ident),
        behind_name(tail),
        !tail.contains('('),
        one_liner(kind + seq![' '] + (ident + tail)),
    ensures
        short_name(kind + seq![' '] + (ident + tail)) == kind + seq![' '] + ident,
{
    let more = ident + tail;
    let none = Seq::<char>::empty();
    lemma_name(kind, more);
    lemma_ident(ident, tail);
    let p = Pattern::Char('(');
    assert forall|i: int| 0 <= i < more.len() implies !p.admits(#[trigger] more[i]) by {
        if i < ident.len() {
            assert(more[i] == ident[i]);
        } else {
            assert(more[i] == tail[i - ident.len()]);
            assert(tail.contains(tail[i - ident.len()]));
        }
    }
    lemma_first_match_is(more, p, more.len() as int);
    assert(signature(more) =~= none);
    let name = kind + seq![' '] + ident;
    assert(name + none =~= name);
    lemma_name_trimmed(name, kind, ident.last());
}

proof fn lemma_name_trimmed(name: Seq<char>, kind: Seq<char>, last: char)
    requires
        a_word(kind),
        name.len() > 0,
        name[0] == kind[0],
        name.last() == last,
        !white_space(last),
    ensures
        trimmed(name) == name,
{
    let none = Seq::<char>::empty();
    assert(!white_space(kind[0]));
    law_trimmed(none, name, none);
    assert(none + name + none =~= name);
}

/// With parameters, the labels of these come behind the identifier, in
/// parentheses. The list of parameters is what stands between the first
/// parenthesis and the next one that closes, be it right behind the identifier
/// or further on.
pub proof fn law_name_with_parameters(
    kind: Seq<char>,
    ident: Seq<char>,
    mid: Seq<char>,
    list: Seq<char>,
    tail: Seq<char>,
)
    requires
        a_word(kind),
        !modifiers().contains(kind),
        ident.len() > 0,
        within_name(ident),
        behind_name(mid),
        !mid.contains('('),
        !list.contains(')'),
        one_liner(kind + seq![' '] + (ident + mid + seq!['('] + list + seq![')'] + tail)),
    ensures
        short_name(kind + seq![' '] + (ident + mid + seq!['('] + list + seq![')'] + tail)) == kind
            + seq![' '] + ident + abbreviated(seq!['('] + list + seq![')']),
        abbreviated(seq!['('] + list + seq![')']).last() == ')',
{
    let rest = seq!['('] + list + seq![')'] + tail;
    let more = ident + mid + seq!['('] + list + seq![')'] + tail;
    assert(more =~= ident + (mid + rest));
    assert((mid + rest)[0] == if mid.len() > 0 {
        mid[0]
    } else {
        '('
    });
    lemma_name(kind, more);
    lemma_ident(ident, mid + rest);
    let n = (ident + mid).len() as int;
    let p = Pattern::Char('(');
    assert forall|i: int| 0 <= i < n implies !p.admits(#[trigger] more[i]) by {
        if i < ident.len() {
            assert(more[i] == ident[i]);
        } else {
            assert(more[i] == mid[i - ident.len()]);
            assert(mid.contains(mid[i - ident.len()]));
        }
    }
    assert(more[n] == '(');
    lemma_first_match_is(more, p, n);
    let r = more.skip(n);
    assert(r =~= rest);
    let q = Pattern::Char(')');
    let m = list.len() as int + 1;
    assert forall|i: int| 0 <= i < m implies !q.admits(#[trigger] r[i]) by {
        if i > 0 {
            assert(r[i] == list[i - 1]);
            assert(list.contains(list[i - 1]));
        }
    }
    assert(r[m] == ')');
    lemma_first_match_is(r, q, m);
    let sig = seq!['('] + list + seq![')'];
    assert(signature(more) =~= sig);
    reveal_strlit("()");
    reveal_strlit(")");
    let short = abbreviated(sig);
    assert(sig[0] == '(');
    assert(short.len() > 0 && short.last() == ')');
    let name = kind + seq![' '] + ident + short;
    assert(name.last() == ')');
    lemma_name_trimmed(name, kind, ')');
}

/// Where no parenthesis closes behind the first one, there are no parameters.
pub proof fn law_name_with_open_list(
    kind: Seq<char>,
    ident: Seq<char>,
    mid: Seq<char>,
    list: Seq<char>,
)
    requires
        a_word(kind),
        !modifiers().contains(kind),
        ident.len() > 0,
        within_name(ident),
        behind_name(mid),
        !mid.contains('('),
        !list.contains(')'),
        one_liner(kind + seq![' '] + (ident + mid + seq!['('] + list)),
    ensures
        short_name(kind + seq![' '] + (ident + mid + seq!['('] + list)) == kind + seq![' '] + ident,
{
    let rest = seq!['('] + list;
    let more = ident + mid + seq!['('] + list;
    assert(more =~= ident + (mid + rest));
    assert((mid + rest)[0] == if mid.len() > 0 {
        mid[0]
    } else {
        '('
    });
    lemma_name(kind, more);
    lemma_ident(ident, mid + rest);
    let n = (ident + mid).len() as int;
    let p = Pattern::Char('(');
    assert forall|i: int| 0 <= i < n implies !p.admits(#[trigger] more[i]) by {
        if i < ident.len() {
            assert(more[i] == ident[i]);
        } else {
            assert(more[i] == mid[i - ident.len()]);
            assert(mid.contains(mid[i - ident.len()]));
        }
    }
    assert(more[n] == '(');
    lemma_first_match_is(more, p, n);
    let r = more.skip(n);
    assert(r =~= rest);
    let q = Pattern::Char(')');
    assert forall|i: int| 0 <= i < r.len() implies !q.admits(#[trigger] r[i]) by {
        if i > 0 {
            assert(r[i] == list[i - 1]);
            assert(list.contains(list[i - 1]));
        }
    }
    lemma_first_match_is(r, q, r.len() as int);
    let none = Seq::<char>::empty();
    assert(signature(more) =~= none);
    assert(abbreviated(none) =~= none);
    let name = kind + seq![' '] + ident;
    assert(name + none =~= name);
    assert(name.last() == ident.last());
    assert(!white_space(ident[ident.len() - 1]));
    lemma_name_trimmed(name, kind, ident.last());
}

/// Where no identifier follows the kind, the kind is all.
pub proof fn law_name_without_identifier(kind: Seq<char>, tail: Seq<char>)
    requires
        a_word(kind),
        !modifiers().contains(kind),
        tail.len() > 0,
        behind_name(tail),
        one_liner(kind + seq![' '] + tail),
    ensures
        short_name(kind + seq![' '] + tail) == kind,
{
    let none = Seq::<char>::empty();
    lemma_name(kind, tail);
    lemma_ident(none, tail);
    assert(none + tail =~= tail);
    assert(tail.take(0) =~= none);
}

/// Whether a parameter has a label: what it starts with, apart from white space,
/// up to a colon or white space.
pub open spec fn labelled(parameter: Seq<char>, name: Seq<char>) -> bool {
    &&& name.len() > 0
    &&& forall|i: int| 0 <= i < name.len() ==> #[trigger] name[i] != ':' && !white_space(name[i])
    &&& exists|a: Seq<char>, b: Seq<char>|
        spaces(a) && (b.len() > 0 ==> b[0] == ':' || white_space(b[0])) && parameter
            == #[trigger] (a + name + b)
}

proof fn lemma_trimmed_ends(s: Seq<char>)
    ensures
        trimmed(s).len() == 0 <==> spaces(s),
        exists|a: Seq<char>, b: Seq<char>|
            spaces(a) && spaces(b) && s == #[trigger] (a + trimmed(s) + b),
        trimmed(s).len() > 0 ==> !white_space(trimmed(s)[0]) && !white_space(trimmed(s).last()),
    decreases s.len(),
{
    let none = Seq::<char>::empty();
    if s.len() == 0 {
        law_trimmed(none, none, none);
        assert(none + none + none =~= none);
        assert(s =~= none);
        assert(s =~= none + trimmed(s) + none);
        assert(spaces(none));
    } else if white_space(s[0]) {
        let r = s.skip(1);
        lemma_trimmed_ends(r);
        assert(trimmed(s) == trimmed(r));
        let (a, b) = choose|a: Seq<char>, b: Seq<char>|
            spaces(a) && spaces(b) && r == #[trigger] (a + trimmed(r) + b);
        let c = seq![s[0]] + a;
        assert forall|i: int| 0 <= i < c.len() implies white_space(#[trigger] c[i]) by {
            if i > 0 {
                assert(c[i] == a[i - 1]);
            }
        }
        assert(s =~= seq![s[0]] + r);
        assert(seq![s[0]] + (a + trimmed(r) + b) =~= c + trimmed(r) + b);
        if spaces(r) {
            assert forall|i: int| 0 <= i < s.len() implies white_space(#[trigger] s[i]) by {
                if i > 0 {
                    assert(s[i] == r[i - 1]);
                }
            }
        }
        if spaces(s) {
            assert forall|i: int| 0 <= i < r.len() implies white_space(#[trigger] r[i]) by {
                assert(r[i] == s[i + 1]);
            }
        }
    } else if white_space(s.last()) {
        let r = s.drop_last();
        assert(r[0] == s[0]);
        lemma_trimmed_ends(r);
        assert(trimmed(s) == trimmed(r));
        let (a, b) = choose|a: Seq<char>, b: Seq<char>|
            spaces(a) && spaces(b) && r == #[trigger] (a + trimmed(r) + b);
        let c = b.push(s.last());
        assert forall|i: int| 0 <= i < c.len() implies white_space(#[trigger] c[i]) by {
            if i < b.len() {
                assert(c[i] == b[i]);
            }
        }
        assert(s =~= r.push(s.last()));
        assert((a + trimmed(r) + b).push(s.last()) =~= a + trimmed(r) + c);
        if spaces(r) {
            assert(white_space(r[0]));
        }
    } else {
        law_trimmed(none, s, none);
        assert(none + s + none =~= s);
        assert(spaces(none));
        assert(s =~= none + trimmed(s) + none);
    }
}

proof fn lemma_labelled(parameter: Seq<char>, name: Seq<char>)
    requires
        labelled(parameter, name),
    ensures
        label(parameter) == name,
        !spaces(parameter),
{
    let (a, b) = choose|a: Seq<char>, b: Seq<char>|
        spaces(a) && (b.len() > 0 ==> b[0] == ':' || white_space(b[0])) && parameter
            == #[trigger] (a + name + b);
    let p = Pattern::LabelEnd;
    assert(!white_space(name[0]));
    assert(parameter[a.len() as int] == name[0]);
    lemma_trimmed_ends(b);
    let none = Seq::<char>::empty();
    if spaces(b) {
        law_trimmed(a, name, b);
        assert(trimmed(parameter) == name);
        assert forall|i: int| 0 <= i < name.len() implies !p.admits(#[trigger] name[i]) by {}
        lemma_first_match_is(name, p, name.len() as int);
        assert(name.take(name.len() as int) =~= name);
    } else {
        let (c, d) = choose|c: Seq<char>, d: Seq<char>|
            spaces(c) && spaces(d) && b == #[trigger] (c + trimmed(b) + d);
        let t = name + c + trimmed(b);
        assert(t.last() == trimmed(b).last());
        assert(parameter =~= a + t + d);
        law_trimmed(a, t, d);
        assert forall|i: int| 0 <= i < name.len() implies !p.admits(#[trigger] t[i]) by {
            assert(t[i] == name[i]);
        }
        let n = name.len() as int;
        assert(t[n] == (c + trimmed(b))[0]);
        assert((c + trimmed(b))[0] == b[0]);
        lemma_first_match_is(t, p, n);
        assert(t.take(n) =~= name);
    }
}

proof fn lemma_labels_front(x: Seq<char>, parts: Seq<Seq<char>>)
    ensures
        labels(seq![x] + parts) == label(x) + ":"@ + labels(parts),
    decreases parts.len(),
{
    let all = seq![x] + parts;
    let none = Seq::<char>::empty();
    if parts.len() == 0 {
        assert(all.drop_last() =~= parts);
        assert(all.last() == x);
        assert(labels(parts) =~= none);
        assert(labels(all) =~= label(x) + ":"@ + labels(parts));
    } else {
        assert(all.drop_last() =~= seq![x] + parts.drop_last());
        assert(all.last() == parts.last());
        lemma_labels_front(x, parts.drop_last());
        assert(labels(all) =~= label(x) + ":"@ + labels(parts));
    }
}

/// The labels of parameters stand one after the other, each with a colon behind
/// it. An empty list stays an empty list.
pub proof fn law_labels(parameter: Seq<char>, name: Seq<char>, others: Seq<char>)
    requires
        labelled(parameter, name),
        !parameter.contains(','),
    ensures
        spaces(others) ==> abbreviated(seq!['('] + others + seq![')']) == "()"@,
        abbreviated(seq!['('] + parameter + seq![')']) == "("@ + name + ":"@ + ")"@,
        !spaces(others) ==> abbreviated(seq!['('] + parameter + seq![','] + others + seq![')'])
            == "("@ + name + ":"@ + abbreviated(seq!['('] + others + seq![')']).skip(1),
        spaces(others) ==> abbreviated(seq!['('] + parameter + seq![','] + others + seq![')'])
            == "("@ + name + ":"@ + ":"@ + ")"@,
{
    lemma_labelled(parameter, name);
    lemma_trimmed_ends(others);
    lemma_trimmed_ends(parameter);
    reveal_strlit("(");
    let none = Seq::<char>::empty();
    let a = seq!['('] + others + seq![')'];
    let b = seq!['('] + parameter + seq![')'];
    let both = parameter + seq![','] + others;
    let c = seq!['('] + parameter + seq![','] + others + seq![')'];
    assert(a.subrange(1, a.len() - 1) =~= others);
    assert(b.subrange(1, b.len() - 1) =~= parameter);
    assert(c.subrange(1, c.len() - 1) =~= both);
    law_split(parameter, ',', others);
    lemma_labels_front(parameter, seq![]);
    assert(seq![parameter] + Seq::<Seq<char>>::empty() =~= seq![parameter]);
    assert(labels(Seq::<Seq<char>>::empty()) =~= none);
    assert("("@ + (name + ":"@ + none) + ")"@ =~= "("@ + name + ":"@ + ")"@);
    if !spaces(others) {
        lemma_trimmed_ends(both);
        assert(!spaces(both)) by {
            let i = choose|i: int| 0 <= i < others.len() && !white_space(#[trigger] others[i]);
            assert(both[parameter.len() + 1 + i] == others[i]);
        }
        let ps = split_list(others, Pattern::Char(','));
        lemma_labels_front(parameter, ps);
        let rest = abbreviated(a);
        assert(rest == "("@ + labels(ps) + ")"@);
        assert(rest.skip(1) =~= labels(ps) + ")"@);
        assert("("@ + (name + ":"@ + labels(ps)) + ")"@ =~= "("@ + name + ":"@ + rest.skip(1));
    } else {
        lemma_trimmed_ends(both);
        assert(both[parameter.len() as int] == ',');
        assert(!spaces(both));
        assert(!others.contains(',')) by {
            if others.contains(',') {
                let i = choose|i: int| 0 <= i < others.len() && others[i] == ',';
                assert(white_space(others[i]));
            }
        }
        law_split(others, ',', none);
        lemma_labels_front(parameter, seq![others]);
        lemma_labels_front(others, seq![]);
        assert(seq![others] + Seq::<Seq<char>>::empty() =~= seq![others]);
        assert(trimmed(others) =~= none);
        assert(label(others) =~= none);
        assert("("@ + (name + ":"@ + (none + ":"@ + none)) + ")"@ =~= "("@ + name + ":"@ + ":"@
            + ")"@);
    }
}

/// A modifier before a declaration makes no difference to its short name.
pub proof fn law_modifier_left_out(i: int, decl: Seq<char>)
    requires
        0 <= i < modifiers().len(),
        one_liner(decl),
    ensures
        short_name(modifiers()[i] + seq![' '] + decl) == short_name(decl),
{
    let word = modifiers()[i];
    let space = seq![' '];
    let more = word + space + decl;
    assert(modifiers().contains(word));
    lemma_modifiers(word);
    lemma_modifier_word(word);
    let k = word.len() as int;
    assert(evenly_spaced(more)) by {
        assert(more[0] == word[0]);
        assert(more.last() == decl.last());
        assert forall|j: int| 0 <= j < more.len() && white_space(#[trigger] more[j]) implies more[j]
            == ' ' by {
            if j < k {
                assert(more[j] == word[j]);
            } else if j > k {
                assert(more[j] == decl[j - k - 1]);
            }
        }
        assert forall|j: int| 0 <= j < more.len() - 1 && white_space(#[trigger] more[j]) implies
            !white_space(more[j + 1]) by {
            if j < k {
                assert(more[j] == word[j]);
            } else if j == k {
                assert(more[j + 1] == decl[0]);
            } else {
                assert(more[j] == decl[j - k - 1] && more[j + 1] == decl[j - k]);
            }
        }
    }
    lemma_naming(more);
    lemma_naming(decl);
    law_words(word, space, decl);
    let w = word_list(more);
    assert(w[0] == word);
    assert(w.skip(1) =~= word_list(decl));
    assert(skip_modifiers(w) == skip_modifiers(w.skip(1)));
}

proof fn lemma_modifier_word(w: Seq<char>)
    requires
        modifier(w),
    ensures
        a_word(w),
        'a' <= w[0] && w[0] <= 'z',
{
    reveal_strlit("public");
    reveal_strlit("open");
    reveal_strlit("package");
    reveal_strlit("internal");
    reveal_strlit("fileprivate");
    reveal_strlit("private");
    reveal_strlit("static");
    reveal_strlit("class");
    reveal_strlit("final");
    reveal_strlit("override");
    reveal_strlit("mutating");
    reveal_strlit("nonmutating");
    reveal_strlit("lazy");
    reveal_strlit("weak");
    reveal_strlit("unowned");
    reveal_strlit("dynamic");
    reveal_strlit("convenience");
    reveal_strlit("required");
    reveal_strlit("indirect");
    reveal_strlit("async");
    reveal_strlit("throws");
    reveal_strlit("rethrows");
    reveal_strlit("prefix");
    reveal_strlit("postfix");
    reveal_strlit("infix");
}

/// An attribute before a declaration makes no difference to its short name: a
/// word that starts with `@`, with or without arguments, on the same line or on
/// one of its own.
pub proof fn law_name_behind_word(
    word: Seq<char>,
    args: Seq<char>,
    space: Seq<char>,
    decl: Seq<char>,
)
    requires
        forall|i: int|
            0 <= i < word.len() ==> !white_space(#[trigger] word[i]) && word[i] != '(',
        forall|i: int|
            0 <= i < args.len() ==> #[trigger] args[i] != '(' && args[i] != ')' && args[i] != '"',
        space.len() > 0,
        spaces(space),
        decl.len() > 0,
        'a' <= decl[0] && decl[0] <= 'z',
    ensures
        short_name(seq!['@'] + word + space + decl) == short_name(decl),
        short_name(seq!['@'] + word + seq!['('] + args + seq![')'] + space + decl) == short_name(
            decl,
        ),
{
    law_word_is_attribute(word);
    law_call_is_attribute(word, args);
    assert(without_attributes(decl) == decl);
    law_name_behind_attribute(seq!['@'] + word, space, decl);
    law_name_behind_attribute(seq!['@'] + word + seq!['('] + args + seq![')'], space, decl);
}

/// A declaration of one word has that as its short name.
pub proof fn law_name_of_one_word(kind: Seq<char>)
    requires
        a_word(kind),
        'a' <= kind[0] && kind[0] <= 'z',
        !modifiers().contains(kind),
    ensures
        short_name(kind) == kind,
{
    lemma_modifiers(kind);
    lemma_naming(kind);
    law_words(kind, seq![], seq![]);
    let w = word_list(kind);
    assert(w == seq![kind]);
    assert(skip_modifiers(w) == w);
    let none = Seq::<Seq<char>>::empty();
    assert(w.skip(1) =~= none);
    let rest = joined(none, seq![' ']);
    assert(rest =~= Seq::<char>::empty());
    assert(name_of_words(w) == kind);
}

/// The short name of a declaration depends on the words of its first line alone,
/// not on the space between them, nor on what comes behind that line.
pub proof fn law_name_by_words(a: Seq<char>, b: Seq<char>, rest: Seq<char>)
    requires
        a.len() > 0 && 'a' <= a[0] && a[0] <= 'z',
        b.len() > 0 && 'a' <= b[0] && b[0] <= 'z',
        !a.contains('\n') && a.last() != '\r',
        !b.contains('\n') && b.last() != '\r',
        word_list(a) == word_list(b),
    ensures
        short_name(a) == short_name(b),
        short_name(a + seq!['\n'] + rest) == short_name(b),
{
    assert(without_attributes(a) == a);
    assert(without_attributes(b) == b);
    law_lines(a, rest);
    law_lines(b, rest);
    let s = a + seq!['\n'] + rest;
    assert(s[0] == a[0]);
    assert(without_attributes(s) == s);
}

/// A declaration that is nothing but an attribute has no short name.
pub proof fn law_attribute_has_no_name(word: Seq<char>)
    requires
        forall|i: int|
            0 <= i < word.len() ==> !white_space(#[trigger] word[i]) && word[i] != '(',
    ensures
        short_name(seq!['@'] + word) == Seq::<char>::empty(),
{
    let decl = seq!['@'] + word;
    let none = Seq::<char>::empty();
    let p = Pattern::WordEnd;
    assert forall|i: int| 0 <= i < decl.len() implies !p.admits(#[trigger] decl[i]) && decl[i]
        != '\n' && !white_space(decl[i]) by {
        if i > 0 {
            assert(decl[i] == word[i - 1]);
        }
    }
    lemma_first_match_is(decl, p, decl.len() as int);
    assert(attribute_len(decl) == decl.len());
    assert(decl.skip(decl.len() as int) =~= none);
    assert(unindented(none) == none);
    assert(none.skip(line_len(none) as int) =~= none);
    assert(trimmed_start(none) == none);
    assert(without_attributes(none) == none);
    assert(trimmed_start(decl) == decl);
    assert(without_attributes(decl) == none);
    assert(!decl.contains('\n'));
    assert(decl.last() != '\r') by {
        assert(!white_space(decl[decl.len() - 1]));
    }
    law_lines(decl, none);
    law_trimmed(none, decl, none);
    assert(none + decl + none =~= decl);
    assert(!white_space(decl[decl.len() - 1]));
    law_words(decl, none, none);
    let w = seq![decl];
    assert(w.skip(1) =~= Seq::<Seq<char>>::empty());
    assert(skip_attributes(w.skip(1)) =~= w.skip(1));
    assert(naming_words(decl) =~= Seq::<Seq<char>>::empty());
    assert(short_name(decl) =~= none);
}

} // verus!
