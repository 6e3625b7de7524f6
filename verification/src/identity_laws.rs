//! What the identity of a declaration depends on, and what not.

use vstd::prelude::*;

use crate::attribute_laws::{
    arguments_text, attribute_lines, balanced, goes_with, is_attribute,
    law_arguments_are_attribute, law_attribute_taken_off, law_call_is_attribute,
    law_lines_taken_off, law_word_is_attribute, lemma_trimmed_start, lemma_trimmed_start_space,
    Argument,
};
use crate::attributes::without_attributes;
use crate::declaration::blank;
use crate::identity::{collapsed, identifying_line, identity, leads_with, without_access};
use crate::text::{
    first_line, first_match, joined, lemma_first_match, lemma_first_match_is, line_list, trimmed,
    trimmed_end, trimmed_start, white_space, word_list, Pattern,
};
use crate::text_laws::{law_trimmed, law_words, lemma_joined_front};

verus! {

/// Whether a text holds no white space.
pub open spec fn solid(s: Seq<char>) -> bool {
    forall|i: int| 0 <= i < s.len() ==> !white_space(#[trigger] s[i])
}

/// Whether a text has no white space at either end.
pub open spec fn tight(s: Seq<char>) -> bool {
    s.len() > 0 ==> !white_space(s[0]) && !white_space(s.last())
}

/// Whether white space in a text is single spaces between other characters.
pub open spec fn evenly_spaced(s: Seq<char>) -> bool {
    &&& tight(s)
    &&& forall|i: int| 0 <= i < s.len() && white_space(#[trigger] s[i]) ==> s[i] == ' '
    &&& forall|i: int| 0 <= i < s.len() - 1 && white_space(#[trigger] s[i]) ==> !white_space(s[i + 1])
}

/// Whether a text is one of the access levels that an identity leaves out.
pub open spec fn access_level(s: Seq<char>) -> bool {
    s == "public"@ || s == "open"@ || s == "package"@
}

proof fn lemma_trimmed_end(s: Seq<char>)
    ensures
        trimmed_end(s).len() > 0 ==> !white_space(trimmed_end(s).last()) && trimmed_end(s)[0]
            == s[0],
        trimmed_end(s).len() == 0 <==> blank(s),
        trimmed_end(s).len() <= s.len(),
        trimmed_end(s) == s.take(trimmed_end(s).len() as int),
    decreases s.len(),
{
    if s.len() > 0 && white_space(s.last()) {
        let r = s.drop_last();
        lemma_trimmed_end(r);
        if blank(r) {
            assert forall|i: int| 0 <= i < s.len() implies white_space(#[trigger] s[i]) by {
                if i < r.len() {
                    assert(r[i] == s[i]);
                }
            }
        }
        if blank(s) {
            assert forall|i: int| 0 <= i < r.len() implies white_space(#[trigger] r[i]) by {
                assert(s[i] == r[i]);
            }
        }
        assert(trimmed_end(s) =~= s.take(trimmed_end(s).len() as int));
    } else {
        assert(s.take(s.len() as int) =~= s);
        if s.len() > 0 {
            assert(!white_space(s[s.len() - 1]));
        }
    }
}

proof fn lemma_trimmed(s: Seq<char>)
    ensures
        tight(trimmed(s)),
{
    lemma_trimmed_start(s);
    lemma_trimmed_end(trimmed_start(s));
}

proof fn lemma_identifying_line(decl: Seq<char>)
    ensures
        tight(identifying_line(decl)),
{
    lemma_trimmed(first_line(without_attributes(decl)));
    lemma_trimmed(decl);
}

proof fn lemma_collapsed(s: Seq<char>)
    ensures
        collapsed(s).len() == 0 <==> s.len() == 0,
        s.len() > 0 ==> (white_space(collapsed(s)[0]) <==> white_space(s[0])),
        s.len() > 0 && !white_space(s[0]) ==> collapsed(s)[0] == s[0],
        s.len() > 0 ==> (white_space(collapsed(s).last()) <==> white_space(s.last())),
        forall|i: int|
            0 <= i < collapsed(s).len() && white_space(#[trigger] collapsed(s)[i]) ==> collapsed(
                s,
            )[i] == ' ',
        forall|i: int|
            0 <= i < collapsed(s).len() - 1 && white_space(#[trigger] collapsed(s)[i])
                ==> !white_space(collapsed(s)[i + 1]),
    decreases s.len(),
{
    if s.len() > 0 {
        let rest = s.drop_last();
        lemma_collapsed(rest);
        let c = collapsed(s);
        let d = collapsed(rest);
        assert forall|i: int| 0 <= i < c.len() - 1 && white_space(#[trigger] c[i]) implies
            !white_space(c[i + 1]) by {
            if i < d.len() - 1 {
                assert(c[i] == d[i] && c[i + 1] == d[i + 1]);
                assert(white_space(d[i]));
            }
        }
    }
}

proof fn lemma_without_access(line: Seq<char>)
    requires
        tight(line),
    ensures
        tight(without_access(line)),
{
    reveal_strlit("public");
    reveal_strlit("open");
    reveal_strlit("package");
    lemma_trimmed_start(line.skip("public"@.len() as int));
    lemma_trimmed_start(line.skip("open"@.len() as int));
    lemma_trimmed_start(line.skip("package"@.len() as int));
}

/// In an identity, white space is single spaces between other characters.
pub proof fn law_identity_form(decl: Seq<char>)
    ensures
        evenly_spaced(identity(decl)),
{
    lemma_identifying_line(decl);
    lemma_without_access(identifying_line(decl));
    lemma_collapsed(without_access(identifying_line(decl)));
}

// White space in the identifying line.

proof fn lemma_collapsed_solid(a: Seq<char>, b: Seq<char>)
    requires
        solid(a),
    ensures
        collapsed(a + b) == a + collapsed(b),
    decreases a.len() + b.len(),
{
    let s = a + b;
    if b.len() == 0 {
        assert(s =~= a);
        assert(a + collapsed(b) =~= a);
        if a.len() > 0 {
            let p = a.drop_last();
            lemma_collapsed_solid(p, b);
            assert(p + b =~= p);
            assert(p + collapsed(b) =~= p);
            assert(!white_space(a[a.len() - 1]));
            assert(collapsed(a) =~= p.push(a.last()));
            assert(a =~= p.push(a.last()));
        }
    } else {
        let q = b.drop_last();
        assert(s.drop_last() =~= a + q);
        lemma_collapsed_solid(a, q);
        if q.len() == 0 && a.len() > 0 {
            assert((a + q).last() == a[a.len() - 1]);
        }
        assert(collapsed(s) =~= a + collapsed(b));
    }
}

proof fn lemma_collapsed_blank(w: Seq<char>, t: Seq<char>)
    requires
        w.len() > 0,
        blank(w),
        t.len() > 0 ==> !white_space(t[0]),
    ensures
        collapsed(w + t) == seq![' '] + collapsed(t),
    decreases w.len() + t.len(),
{
    let s = w + t;
    if t.len() == 0 {
        assert(s =~= w);
        assert(white_space(w[w.len() - 1]));
        let p = w.drop_last();
        if p.len() > 0 {
            lemma_collapsed_blank(p, t);
            assert(p + t =~= p);
            assert(white_space(w[p.len() - 1]));
            assert(p.last() == w[p.len() - 1]);
        }
        assert(collapsed(t) =~= Seq::<char>::empty());
        assert(collapsed(p) =~= if p.len() > 0 {
            seq![' ']
        } else {
            seq![]
        });
        assert(collapsed(s) =~= seq![' '] + collapsed(t));
    } else {
        let q = t.drop_last();
        assert(s.drop_last() =~= w + q);
        lemma_collapsed_blank(w, q);
        assert(s.last() == t.last());
        if q.len() == 0 {
            assert(!white_space(t.last()));
        } else {
            assert((w + q).last() == q.last());
        }
        assert(collapsed(s) =~= seq![' '] + collapsed(t));
    }
}

proof fn lemma_keywords_solid(keyword: Seq<char>)
    requires
        access_level(keyword),
    ensures
        solid(keyword),
        keyword.len() > 0,
        keyword[0] != '@',
{
    reveal_strlit("public");
    reveal_strlit("open");
    reveal_strlit("package");
}

/// A line is its first word and what comes after it, and so is the line with
/// its white space collapsed.
proof fn lemma_first_word(line: Seq<char>) -> (n: int)
    ensures
        0 <= n <= line.len(),
        solid(line.take(n)),
        n < line.len() ==> white_space(line[n]),
        collapsed(line) == line.take(n) + collapsed(line.skip(n)),
        collapsed(line.skip(n)).len() > 0 ==> white_space(collapsed(line.skip(n))[0]),
        collapsed(line.skip(n)).len() > 0 <==> n < line.len(),
{
    let n = first_match(line, Pattern::Space) as int;
    lemma_first_match(line, Pattern::Space);
    let a = line.take(n);
    let b = line.skip(n);
    assert(line =~= a + b);
    assert forall|i: int| 0 <= i < a.len() implies !white_space(#[trigger] a[i]) by {
        assert(!Pattern::Space.admits(line[i]));
    }
    lemma_collapsed_solid(a, b);
    lemma_collapsed(b);
    n
}

/// Whether a line leads with an access level does not depend on its white
/// space.
proof fn lemma_leads_collapsed(line: Seq<char>, keyword: Seq<char>)
    requires
        access_level(keyword),
    ensures
        leads_with(collapsed(line), keyword) <==> leads_with(line, keyword),
{
    lemma_keywords_solid(keyword);
    let n = lemma_first_word(line);
    let a = line.take(n);
    let b = collapsed(line.skip(n));
    let c = collapsed(line);
    let k = keyword.len() as int;
    if leads_with(c, keyword) {
        if k < n {
            assert(c[k] == a[k]);
        }
        if n < k {
            assert(c[n] == keyword[n]);
            assert(c[n] == b[0]);
        }
        assert(k == n);
        assert forall|i: int| 0 <= i < k implies keyword[i] == line[i] by {
            assert(c[i] == keyword[i]);
            assert(c[i] == a[i]);
        }
        assert(keyword =~= line.subrange(0, k));
    }
    if leads_with(line, keyword) {
        if n < k {
            assert(line[n] == keyword[n]);
        }
        if k < n {
            assert(a[k] == line[k]);
        }
        assert(k == n);
        assert forall|i: int| 0 <= i < k implies keyword[i] == c[i] by {
            assert(line[i] == keyword[i]);
            assert(c[i] == a[i]);
        }
        assert(keyword =~= c.subrange(0, k));
        assert(c[k] == b[0]);
    }
}

/// What comes after the access level, collapsed, is what comes after it in the
/// collapsed line.
proof fn lemma_after_collapsed(line: Seq<char>, keyword: Seq<char>)
    requires
        access_level(keyword),
        leads_with(line, keyword),
    ensures
        trimmed_start(collapsed(line).skip(keyword.len() as int)) == collapsed(
            trimmed_start(line.skip(keyword.len() as int)),
        ),
{
    lemma_keywords_solid(keyword);
    let k = keyword.len() as int;
    let b = line.skip(k);
    assert(line =~= keyword + b);
    lemma_collapsed_solid(keyword, b);
    let t = trimmed_start(b);
    lemma_trimmed_start(b);
    let w = b.take(b.len() - t.len());
    assert(b =~= w + t);
    assert(b[0] == line[k]);
    assert(w.len() > 0);
    lemma_collapsed_blank(w, t);
    let c = collapsed(line).skip(k);
    assert(c =~= seq![' '] + collapsed(t));
    lemma_collapsed(t);
    assert(c.skip(1) =~= collapsed(t));
    assert(trimmed_start(collapsed(t)) == collapsed(t));
    assert(c[0] == ' ');
    assert(trimmed_start(c) == trimmed_start(c.skip(1)));
}

proof fn lemma_identity_collapsed(decl: Seq<char>)
    ensures
        identity(decl) == without_access(collapsed(identifying_line(decl))),
{
    let line = identifying_line(decl);
    lemma_leads_collapsed(line, "public"@);
    lemma_leads_collapsed(line, "open"@);
    lemma_leads_collapsed(line, "package"@);
    if leads_with(line, "public"@) {
        lemma_after_collapsed(line, "public"@);
    } else if leads_with(line, "open"@) {
        lemma_after_collapsed(line, "open"@);
    } else if leads_with(line, "package"@) {
        lemma_after_collapsed(line, "package"@);
    }
}

/// Two declarations whose identifying lines differ in their white space alone
/// have the same identity.
pub proof fn law_white_space(a: Seq<char>, b: Seq<char>)
    requires
        collapsed(identifying_line(a)) == collapsed(identifying_line(b)),
    ensures
        identity(a) == identity(b),
{
    lemma_identity_collapsed(a);
    lemma_identity_collapsed(b);
}

// Attributes and access levels.

/// An attribute before a declaration makes no difference to its identity, on
/// the same line or on one of its own, as long as there is more to the
/// declaration than attributes.
pub proof fn law_attribute(attribute: Seq<char>, space: Seq<char>, decl: Seq<char>)
    requires
        is_attribute(attribute),
        goes_with(space, decl),
        without_attributes(decl).len() > 0,
    ensures
        identity(attribute + space + decl) == identity(decl),
{
    law_attribute_taken_off(attribute, space, decl);
}

/// Blank lines and attribute lines before a declaration make no difference to
/// its identity, nor does anything behind its first line.
pub proof fn law_attribute_lines(prefix: Seq<char>, line: Seq<char>, rest: Seq<char>)
    requires
        attribute_lines(prefix, line + "\n"@ + rest),
        !line.contains('\n'),
        !blank(line),
        trimmed(line)[0] != '@',
    ensures
        identity(prefix + "\n"@ + line + "\n"@ + rest) == identity(line),
{
    reveal_strlit("\n");
    let after = line + "\n"@ + rest;
    assert(prefix + "\n"@ + line + "\n"@ + rest =~= prefix + "\n"@ + after);
    law_lines_taken_off(prefix, after);
    let t = trimmed_start(line);
    lemma_trimmed_start(line);
    lemma_trimmed_end(t);
    assert(trimmed(line)[0] == t[0]);
    let tail = "\n"@ + rest;
    assert(after =~= line + tail);
    lemma_trimmed_start_tail(line, tail);
    assert(without_attributes(line) == t);
    assert(without_attributes(after) == t + tail);
    assert(identifying_line(line) == opening(t)) by {
        lemma_opening(t);
        assert(without_attributes(t) == t);
    }
    assert(identifying_line(after) == opening(t + tail)) by {
        lemma_opening(t + tail);
        assert(without_attributes(t + tail) == t + tail);
    }
    lemma_no_feed(line, t);
    assert(first_match(t, Pattern::Char('\n')) == t.len()) by {
        lemma_first_match_is(t, Pattern::Char('\n'), t.len() as int);
    }
    assert forall|i: int| 0 <= i < t.len() implies !Pattern::Char('\n').admits(
        #[trigger] (t + tail)[i],
    ) by {
        assert((t + tail)[i] == t[i]);
    }
    lemma_first_match_is(t + tail, Pattern::Char('\n'), t.len() as int);
    assert((t + tail).take(t.len() as int) =~= t.take(t.len() as int));
}

proof fn lemma_no_feed(line: Seq<char>, t: Seq<char>)
    requires
        !line.contains('\n'),
        t == trimmed_start(line),
    ensures
        forall|i: int| 0 <= i < t.len() ==> !Pattern::Char('\n').admits(#[trigger] t[i]),
{
    lemma_trimmed_start(line);
    assert forall|i: int| 0 <= i < t.len() implies !Pattern::Char('\n').admits(
        #[trigger] t[i],
    ) by {
        assert(t[i] == line[line.len() - t.len() + i]);
        assert(line.contains(line[line.len() - t.len() + i]));
    }
}

/// White space before a declaration makes no difference to its identity.
pub proof fn law_indented(space: Seq<char>, decl: Seq<char>)
    requires
        blank(space),
        without_attributes(decl).len() > 0,
    ensures
        identity(space + decl) == identity(decl),
{
    lemma_trimmed_start_space(space, decl);
}

/// A text up to its first line feed, without white space at the end.
spec fn opening(s: Seq<char>) -> Seq<char> {
    trimmed_end(s.take(first_match(s, Pattern::Char('\n')) as int))
}

proof fn lemma_trimmed_end_add(a: Seq<char>, b: Seq<char>)
    requires
        !blank(b),
    ensures
        trimmed_end(a + b) == a + trimmed_end(b),
    decreases b.len(),
{
    let s = a + b;
    assert(b.len() > 0);
    if white_space(b.last()) {
        let q = b.drop_last();
        assert(s.drop_last() =~= a + q);
        if blank(q) {
            assert forall|i: int| 0 <= i < b.len() implies white_space(#[trigger] b[i]) by {
                if i < q.len() {
                    assert(q[i] == b[i]);
                }
            }
        }
        lemma_trimmed_end_add(a, q);
    } else {
        assert(s.last() == b.last());
    }
}

/// The identifying line of a text that starts with neither white space nor an
/// attribute.
proof fn lemma_opening(s: Seq<char>)
    requires
        s.len() > 0,
        !white_space(s[0]),
        s[0] != '@',
    ensures
        identifying_line(s) == opening(s),
{
    let n = first_match(s, Pattern::Char('\n')) as int;
    lemma_first_match(s, Pattern::Char('\n'));
    assert(white_space('\n'));
    assert(n > 0);
    let line = line_list(s)[0];
    let whole = s.take(n);
    assert(line_list(s).len() > 0);
    if n == s.len() {
        assert(whole =~= s);
    }
    if n < s.len() && whole.last() == '\r' {
        assert(line == whole.drop_last());
        if n == 1 {
            assert(white_space(whole[0]));
        }
        assert(trimmed_end(whole) == trimmed_end(line));
    }
    assert(line.len() > 0 && line[0] == s[0]);
    assert(trimmed(line) == trimmed_end(line));
    lemma_trimmed_end(line);
    assert(trimmed_end(line) == opening(s));
}

proof fn lemma_after_access(level: Seq<char>, space: Seq<char>, rest: Seq<char>)
    requires
        access_level(level),
        space.len() > 0,
        blank(space),
        !space.contains('\n'),
        rest.len() > 0,
        !white_space(rest[0]),
    ensures
        identity(level + space + rest) == collapsed(opening(rest)),
{
    lemma_keywords_solid(level);
    let s = level + space + rest;
    let front = level + space;
    let m = first_match(rest, Pattern::Char('\n')) as int;
    lemma_first_match(rest, Pattern::Char('\n'));
    let n = front.len() + m;
    assert forall|i: int| 0 <= i < n implies !Pattern::Char('\n').admits(#[trigger] s[i]) by {
        if i < level.len() {
            assert(!white_space(level[i]));
        } else if i < front.len() {
            assert(space.contains(space[i - level.len()]));
        } else {
            assert(!Pattern::Char('\n').admits(rest[i - front.len()]));
        }
    }
    if m < rest.len() {
        assert(s[n] == rest[m]);
    }
    lemma_first_match_is(s, Pattern::Char('\n'), n);
    assert(white_space('\n'));
    assert(m > 0);
    let tail = rest.take(m);
    assert(s.take(n) =~= front + tail);
    assert(!white_space(tail[0]));
    lemma_trimmed_end_add(front, tail);
    lemma_opening(s);
    let t = trimmed_end(tail);
    lemma_trimmed_end(tail);
    let line = identifying_line(s);
    assert(line == front + t);
    assert(leads_with(line, level)) by {
        assert(level =~= line.subrange(0, level.len() as int));
        assert(line[level.len() as int] == space[0]);
    }
    assert(line.skip(level.len() as int) =~= space + t);
    lemma_trimmed_start(space + t);
    lemma_trimmed_start_add(space, t);
    reveal_strlit("public");
    reveal_strlit("open");
    reveal_strlit("package");
    if level != "public"@ {
        assert(!leads_with(line, "public"@)) by {
            if leads_with(line, "public"@) {
                assert(line[1] == "public"@[1]);
                assert(line[1] == level[1]);
            }
        }
        if level != "open"@ {
            assert(!leads_with(line, "open"@)) by {
                if leads_with(line, "open"@) {
                    assert(line[1] == "open"@[1]);
                    assert(line[0] == "open"@[0]);
                    assert(line[0] == level[0]);
                }
            }
        }
    }
    assert(without_access(line) == t);
}

proof fn lemma_trimmed_start_add(w: Seq<char>, t: Seq<char>)
    requires
        blank(w),
        t.len() > 0,
        !white_space(t[0]),
    ensures
        trimmed_start(w + t) == t,
    decreases w.len(),
{
    if w.len() == 0 {
        assert(w + t =~= t);
    } else {
        assert(white_space(w[0]));
        assert((w + t).skip(1) =~= w.skip(1) + t);
        lemma_trimmed_start_add(w.skip(1), t);
    }
}

/// The identity of a declaration does not depend on its access level, nor on
/// the space after it.
pub proof fn law_access_level(
    old_level: Seq<char>,
    old_space: Seq<char>,
    new_level: Seq<char>,
    new_space: Seq<char>,
    rest: Seq<char>,
)
    requires
        access_level(old_level) && access_level(new_level),
        old_space.len() > 0 && blank(old_space) && !old_space.contains('\n'),
        new_space.len() > 0 && blank(new_space) && !new_space.contains('\n'),
        rest.len() > 0 && !white_space(rest[0]),
    ensures
        identity(old_level + old_space + rest) == identity(new_level + new_space + rest),
{
    lemma_after_access(old_level, old_space, rest);
    lemma_after_access(new_level, new_space, rest);
}

/// A declaration without an access level keeps its identity when it gets one.
pub proof fn law_access_level_added(level: Seq<char>, space: Seq<char>, decl: Seq<char>)
    requires
        access_level(level),
        space.len() > 0 && blank(space) && !space.contains('\n'),
        decl.len() > 0 && !white_space(decl[0]) && decl[0] != '@',
        without_access(identifying_line(decl)) == identifying_line(decl),
    ensures
        identity(level + space + decl) == identity(decl),
{
    lemma_after_access(level, space, decl);
    lemma_opening(decl);
}


// What is appended to a declaration.

proof fn lemma_collapsed_add(a: Seq<char>, b: Seq<char>)
    requires
        b.len() > 0,
        !white_space(b[0]),
    ensures
        collapsed(a + b) == collapsed(a) + collapsed(b),
    decreases b.len(),
{
    let s = a + b;
    let q = b.drop_last();
    assert(s.drop_last() =~= a + q);
    assert(s.last() == b.last());
    if q.len() == 0 {
        assert(a + q =~= a);
        assert(collapsed(q) =~= Seq::<char>::empty());
    } else {
        lemma_collapsed_add(a, q);
        assert((a + q).last() == q.last());
    }
    assert(collapsed(s) =~= collapsed(a) + collapsed(b));
}

proof fn lemma_without_access_add(d: Seq<char>, tail: Seq<char>)
    requires
        tail.len() > 0,
        white_space(tail[0]),
        d.len() > 0,
        tight(d),
        !access_level(d),
    ensures
        without_access(d + tail) == without_access(d) + tail,
        without_access(d).len() > 0,
{
    lemma_leads_add(d, tail, "public"@);
    lemma_leads_add(d, tail, "open"@);
    lemma_leads_add(d, tail, "package"@);
}

proof fn lemma_leads_add(d: Seq<char>, tail: Seq<char>, keyword: Seq<char>)
    requires
        tail.len() > 0,
        white_space(tail[0]),
        d.len() > 0,
        tight(d),
        !access_level(d),
        access_level(keyword),
    ensures
        leads_with(d, keyword) <==> leads_with(d + tail, keyword),
        leads_with(d, keyword) ==> trimmed_start((d + tail).skip(keyword.len() as int))
            == trimmed_start(d.skip(keyword.len() as int)) + tail && trimmed_start(
            d.skip(keyword.len() as int),
        ).len() > 0,
{
    lemma_keywords_solid(keyword);
    let s = d + tail;
    let k = keyword.len() as int;
    if leads_with(d, keyword) {
        assert(keyword =~= s.subrange(0, k)) by {
            assert(keyword =~= d.subrange(0, k));
        }
        assert(s[k] == d[k]);
        assert(s.skip(k) =~= d.skip(k) + tail);
        assert(d.skip(k).last() == d.last());
        assert(!blank(d.skip(k))) by {
            assert(d.skip(k)[d.len() - k - 1] == d.last());
        }
        lemma_trimmed_start(d.skip(k));
        lemma_trimmed_start_tail(d.skip(k), tail);
    }
    if leads_with(s, keyword) {
        assert(keyword =~= s.subrange(0, k));
        if k < d.len() {
            assert(keyword =~= d.subrange(0, k));
            assert(s[k] == d[k]);
        } else {
            lemma_not_within(d, tail, keyword);
            assert(d =~= keyword);
        }
    }
}

/// An access level is not split by white space.
proof fn lemma_not_within(d: Seq<char>, tail: Seq<char>, keyword: Seq<char>)
    requires
        access_level(keyword),
        leads_with(d + tail, keyword),
        tail.len() > 0,
        white_space(tail[0]),
    ensures
        keyword.len() <= d.len(),
{
    lemma_keywords_solid(keyword);
    if d.len() < keyword.len() {
        assert((d + tail)[d.len() as int] == tail[0]);
        assert((d + tail)[d.len() as int] == keyword[d.len() as int]);
    }
}

proof fn lemma_trimmed_start_tail(s: Seq<char>, tail: Seq<char>)
    requires
        !blank(s),
    ensures
        trimmed_start(s + tail) == trimmed_start(s) + tail,
    decreases s.len(),
{
    assert(s.len() > 0);
    assert((s + tail)[0] == s[0]);
    if white_space(s[0]) {
        assert((s + tail).skip(1) =~= s.skip(1) + tail);
        if blank(s.skip(1)) {
            assert forall|i: int| 0 <= i < s.len() implies white_space(#[trigger] s[i]) by {
                if i > 0 {
                    assert(s.skip(1)[i - 1] == s[i]);
                }
            }
        }
        lemma_trimmed_start_tail(s.skip(1), tail);
    }
}

proof fn lemma_one_line(s: Seq<char>)
    requires
        s.len() > 0,
        tight(s),
        !s.contains('\n'),
        s[0] != '@',
    ensures
        identifying_line(s) == s,
{
    lemma_opening(s);
    assert forall|i: int| 0 <= i < s.len() implies !Pattern::Char('\n').admits(
        #[trigger] s[i],
    ) by {
        assert(s.contains(s[i]));
    }
    lemma_first_match_is(s, Pattern::Char('\n'), s.len() as int);
    assert(s.take(s.len() as int) =~= s);
}

/// What is appended to the line of a declaration, such as `throws` or `async`,
/// is part of the identity: with it, the declaration is another one.
pub proof fn law_appended_kept(decl: Seq<char>, more: Seq<char>)
    requires
        decl.len() > 0 && tight(decl) && !decl.contains('\n') && decl[0] != '@',
        !access_level(decl),
        more.len() > 0 && tight(more) && !more.contains('\n'),
    ensures
        identity(decl + " "@ + more) == identity(decl) + " "@ + collapsed(more),
        identity(decl + " "@ + more) != identity(decl),
{
    reveal_strlit(" ");
    let tail = " "@ + more;
    let s = decl + " "@ + more;
    assert(s =~= decl + tail);
    assert(s.last() == more.last());
    assert(!s.contains('\n')) by {
        if s.contains('\n') {
            let i = choose|i: int| 0 <= i < s.len() && s[i] == '\n';
            if i < decl.len() {
                assert(decl.contains(decl[i]));
            } else if i > decl.len() {
                assert(more.contains(more[i - decl.len() - 1]));
            }
        }
    }
    lemma_one_line(decl);
    lemma_one_line(s);
    assert(tail[0] == ' ');
    lemma_without_access_add(decl, tail);
    let w = without_access(decl);
    lemma_without_access(decl);
    assert(w + tail =~= w.push(' ') + more);
    lemma_collapsed_add(w.push(' '), more);
    assert(w.push(' ').drop_last() =~= w);
    assert(collapsed(w.push(' ')) == collapsed(w).push(' '));
    assert(identity(s) =~= identity(decl) + " "@ + collapsed(more));
    assert(identity(s).len() > identity(decl).len());
}

// What is left of a declaration in its identity.

proof fn lemma_collapsed_even(s: Seq<char>)
    requires
        forall|i: int| 0 <= i < s.len() && white_space(#[trigger] s[i]) ==> s[i] == ' ',
        forall|i: int|
            0 <= i < s.len() - 1 && white_space(#[trigger] s[i]) ==> !white_space(s[i + 1]),
    ensures
        collapsed(s) == s,
    decreases s.len(),
{
    if s.len() > 0 {
        let rest = s.drop_last();
        assert forall|i: int| 0 <= i < rest.len() && white_space(#[trigger] rest[i]) implies rest[i]
            == ' ' by {
            assert(rest[i] == s[i]);
        }
        assert forall|i: int|
            0 <= i < rest.len() - 1 && white_space(#[trigger] rest[i]) implies !white_space(
            rest[i + 1],
        ) by {
            assert(rest[i] == s[i] && rest[i + 1] == s[i + 1]);
        }
        lemma_collapsed_even(rest);
        if rest.len() > 0 {
            assert(rest.last() == s[s.len() - 2]);
        }
        assert(s[s.len() - 1] == s.last());
        assert(collapsed(s) =~= s);
    }
}

/// A declaration in one line, with single spaces between its words, is its own
/// identity, and it is the identity of the declaration with an access level
/// before it.
pub proof fn law_identity_is_declaration(decl: Seq<char>)
    requires
        decl.len() > 0,
        !white_space(decl[0]) && !white_space(decl.last()),
        forall|i: int| 0 <= i < decl.len() && white_space(#[trigger] decl[i]) ==> decl[i] == ' ',
        forall|i: int|
            0 <= i < decl.len() - 1 && white_space(#[trigger] decl[i]) ==> !white_space(decl[i + 1]),
        decl[0] != '@',
    ensures
        identity("public "@ + decl) == decl,
        identity("open "@ + decl) == decl,
        identity("package "@ + decl) == decl,
        !"public "@.is_prefix_of(decl) && !"open "@.is_prefix_of(decl)
            && !"package "@.is_prefix_of(decl) ==> identity(decl) == decl,
{
    reveal_strlit("public ");
    reveal_strlit("open ");
    reveal_strlit("package ");
    reveal_strlit("public");
    reveal_strlit("open");
    reveal_strlit("package");
    let space = seq![' '];
    assert(!decl.contains('\n')) by {
        if decl.contains('\n') {
            let i = choose|i: int| 0 <= i < decl.len() && decl[i] == '\n';
            assert(white_space(decl[i]));
        }
    }
    assert(!space.contains('\n'));
    lemma_one_line(decl);
    lemma_opening(decl);
    lemma_collapsed_even(decl);
    assert("public "@ + decl =~= "public"@ + space + decl);
    assert("open "@ + decl =~= "open"@ + space + decl);
    assert("package "@ + decl =~= "package"@ + space + decl);
    lemma_after_access("public"@, space, decl);
    lemma_after_access("open"@, space, decl);
    lemma_after_access("package"@, space, decl);
    lemma_leads_space(decl, "public"@);
    lemma_leads_space(decl, "open"@);
    lemma_leads_space(decl, "package"@);
    assert("public"@ + space =~= "public "@);
    assert("open"@ + space =~= "open "@);
    assert("package"@ + space =~= "package "@);
}

proof fn lemma_leads_space(line: Seq<char>, keyword: Seq<char>)
    requires
        forall|i: int| 0 <= i < line.len() && white_space(#[trigger] line[i]) ==> line[i] == ' ',
    ensures
        leads_with(line, keyword) ==> (keyword + seq![' ']).is_prefix_of(line),
{
    if leads_with(line, keyword) {
        let k = keyword.len() as int;
        assert(line[k] == ' ');
        assert(keyword =~= line.subrange(0, k));
        assert(keyword + seq![' '] =~= line.subrange(0, k + 1));
    }
}

/// An attribute before a declaration makes no difference to its identity: a
/// word that starts with `@`, on the same line or on one of its own.
pub proof fn law_attribute_word(word: Seq<char>, space: Seq<char>, decl: Seq<char>)
    requires
        forall|i: int|
            0 <= i < word.len() ==> !white_space(#[trigger] word[i]) && word[i] != '(',
        space.len() > 0,
        forall|i: int| 0 <= i < space.len() ==> white_space(#[trigger] space[i]),
        decl.len() > 0,
        ('a' <= decl[0] && decl[0] <= 'z') || ('A' <= decl[0] && decl[0] <= 'Z') || decl[0] == '_'
            || decl[0] == '`' || (decl[0] > '\u{7F}' && !white_space(decl[0])),
    ensures
        identity(seq!['@'] + word + space + decl) == identity(decl),
{
    law_word_is_attribute(word);
    assert(without_attributes(decl) == decl);
    law_attribute(seq!['@'] + word, space, decl);
}

/// The same holds of an attribute with arguments.
pub proof fn law_attribute_call(
    word: Seq<char>,
    args: Seq<char>,
    space: Seq<char>,
    decl: Seq<char>,
)
    requires
        forall|i: int|
            0 <= i < word.len() ==> !white_space(#[trigger] word[i]) && word[i] != '(',
        forall|i: int|
            0 <= i < args.len() ==> #[trigger] args[i] != '(' && args[i] != ')' && args[i] != '"',
        space.len() > 0,
        forall|i: int| 0 <= i < space.len() ==> white_space(#[trigger] space[i]),
        decl.len() > 0,
        ('a' <= decl[0] && decl[0] <= 'z') || ('A' <= decl[0] && decl[0] <= 'Z') || decl[0] == '_'
            || decl[0] == '`' || (decl[0] > '\u{7F}' && !white_space(decl[0])),
    ensures
        identity(seq!['@'] + word + seq!['('] + args + seq![')'] + space + decl) == identity(decl),
{
    law_call_is_attribute(word, args);
    assert(without_attributes(decl) == decl);
    law_attribute(seq!['@'] + word + seq!['('] + args + seq![')'], space, decl);
}

/// The parentheses of lists among the arguments and those in string literals do
/// not end the attribute.
pub proof fn law_attribute_arguments(
    word: Seq<char>,
    args: Seq<Argument>,
    space: Seq<char>,
    decl: Seq<char>,
)
    requires
        forall|i: int|
            0 <= i < word.len() ==> !white_space(#[trigger] word[i]) && word[i] != '(',
        balanced(args, 0),
        space.len() > 0,
        forall|i: int| 0 <= i < space.len() ==> white_space(#[trigger] space[i]),
        decl.len() > 0,
        ('a' <= decl[0] && decl[0] <= 'z') || ('A' <= decl[0] && decl[0] <= 'Z') || decl[0] == '_'
            || decl[0] == '`' || (decl[0] > '\u{7F}' && !white_space(decl[0])),
    ensures
        identity(
            seq!['@'] + word + seq!['('] + arguments_text(args) + seq![')'] + space + decl,
        ) == identity(decl),
{
    law_arguments_are_attribute(word, args);
    assert(without_attributes(decl) == decl);
    law_attribute(
        seq!['@'] + word + seq!['('] + arguments_text(args) + seq![')'],
        space,
        decl,
    );
}

/// The characters of a text that are not white space, in their order.
pub open spec fn inked(s: Seq<char>) -> Seq<char> {
    s.filter(|c: char| !white_space(c))
}

pub broadcast proof fn lemma_inked_add(a: Seq<char>, b: Seq<char>)
    ensures
        #[trigger] inked(a + b) == inked(a) + inked(b),
{
    Seq::filter_distributes_over_add(a, b, |c: char| !white_space(c));
}

proof fn lemma_inked_one(c: char)
    ensures
        inked(seq![c]) == if white_space(c) {
            seq![]
        } else {
            seq![c]
        },
{
    reveal(Seq::filter);
    reveal_with_fuel(Seq::filter, 2);
    assert(seq![c].drop_last() =~= Seq::<char>::empty());
    if white_space(c) {
        assert(inked(seq![c]) =~= seq![]);
    } else {
        assert(inked(seq![c]) =~= seq![c]);
    }
}

pub proof fn lemma_inked_blank(s: Seq<char>)
    requires
        blank(s),
    ensures
        inked(s) == Seq::<char>::empty(),
    decreases s.len(),
{
    reveal(Seq::filter);
    if s.len() > 0 {
        let p = s.drop_last();
        assert forall|i: int| 0 <= i < p.len() implies white_space(#[trigger] p[i]) by {
            assert(p[i] == s[i]);
        }
        lemma_inked_blank(p);
        assert(white_space(s[s.len() - 1]));
    }
    assert(inked(s) =~= seq![]);
}

proof fn lemma_inked_trimmed(s: Seq<char>)
    ensures
        inked(trimmed_start(s)) == inked(s),
        inked(trimmed_end(s)) == inked(s),
{
    broadcast use lemma_inked_add;

    lemma_trimmed_start(s);
    lemma_trimmed_end(s);
    let t = trimmed_start(s);
    let w = s.take(s.len() - t.len());
    assert(s =~= w + t);
    lemma_inked_blank(w);
    assert(inked(s) =~= inked(t));
    lemma_inked_trimmed_end(s);
}

proof fn lemma_inked_trimmed_end(s: Seq<char>)
    ensures
        inked(trimmed_end(s)) == inked(s),
    decreases s.len(),
{
    reveal(Seq::filter);
    if s.len() > 0 && white_space(s.last()) {
        lemma_inked_trimmed_end(s.drop_last());
    }
}

proof fn lemma_inked_collapsed(s: Seq<char>)
    ensures
        inked(collapsed(s)) == inked(s),
    decreases s.len(),
{
    broadcast use lemma_inked_add;

    if s.len() > 0 {
        let rest = s.drop_last();
        lemma_inked_collapsed(rest);
        lemma_inked_one(s.last());
        lemma_inked_one(' ');
        assert(s =~= rest + seq![s.last()]);
        assert(collapsed(rest).push(s.last()) =~= collapsed(rest) + seq![s.last()]);
        assert(collapsed(rest).push(' ') =~= collapsed(rest) + seq![' ']);
        assert(inked(rest) + seq![] =~= inked(rest));
    }
}

/// Apart from white space, the identity of a declaration in one line is all of
/// its text, or all but the access level that it starts with.
pub proof fn law_nothing_left_out(decl: Seq<char>)
    requires
        decl.len() > 0,
        !white_space(decl[0]) && !white_space(decl.last()),
        !decl.contains('\n'),
        decl[0] != '@',
    ensures
        ({
            let key = inked(identity(decl));
            ||| inked(decl) == key
            ||| inked(decl) == "public"@ + key
            ||| inked(decl) == "open"@ + key
            ||| inked(decl) == "package"@ + key
        }),
{
    lemma_one_line(decl);
    let line = decl;
    lemma_inked_collapsed(without_access(line));
    if leads_with(line, "public"@) {
        lemma_inked_after(line, "public"@);
    } else if leads_with(line, "open"@) {
        lemma_inked_after(line, "open"@);
    } else if leads_with(line, "package"@) {
        lemma_inked_after(line, "package"@);
    }
}

proof fn lemma_inked_after(line: Seq<char>, keyword: Seq<char>)
    requires
        access_level(keyword),
        leads_with(line, keyword),
    ensures
        inked(line) == keyword + inked(trimmed_start(line.skip(keyword.len() as int))),
{
    broadcast use lemma_inked_add;

    let k = keyword.len() as int;
    lemma_keywords_solid(keyword);
    assert(line =~= keyword + line.skip(k));
    lemma_inked_trimmed(line.skip(k));
    lemma_inked_solid(keyword);
}

proof fn lemma_inked_solid(s: Seq<char>)
    requires
        solid(s),
    ensures
        inked(s) == s,
    decreases s.len(),
{
    reveal(Seq::filter);
    if s.len() > 0 {
        let p = s.drop_last();
        assert forall|i: int| 0 <= i < p.len() implies !white_space(#[trigger] p[i]) by {
            assert(p[i] == s[i]);
        }
        lemma_inked_solid(p);
        assert(!white_space(s[s.len() - 1]));
        assert(s =~= p.push(s.last()));
    }
}

// The identity of a declaration in terms of its words.

pub proof fn lemma_words_joined(s: Seq<char>)
    requires
        evenly_spaced(s),
    ensures
        joined(word_list(s), seq![' ']) == s,
        s.len() > 0 ==> word_list(s).len() > 0,
    decreases s.len(),
{
    if s.len() > 0 {
        let n = first_match(s, Pattern::Space) as int;
        lemma_first_match(s, Pattern::Space);
        let w = s.take(n);
        assert(n > 0);
        assert forall|i: int| 0 <= i < w.len() implies !white_space(#[trigger] w[i]) by {
            assert(!Pattern::Space.admits(s[i]));
        }
        let space = seq![' '];
        if n == s.len() {
            assert(w =~= s);
            law_words(w, space, seq![]);
            assert(joined(seq![s], space) == s);
        } else {
            let rest = s.skip(n + 1);
            assert(white_space(s[n]));
            assert(s[n] == ' ');
            assert(n + 1 < s.len());
            assert(s =~= w + space + rest);
            assert forall|i: int| 0 <= i < rest.len() && white_space(#[trigger] rest[i]) implies
                rest[i] == ' ' by {
                assert(rest[i] == s[n + 1 + i]);
            }
            assert forall|i: int| 0 <= i < rest.len() - 1 && white_space(#[trigger] rest[i]) implies
                !white_space(rest[i + 1]) by {
                assert(rest[i] == s[n + 1 + i] && rest[i + 1] == s[n + 1 + i + 1]);
            }
            assert(rest[0] == s[n + 1]);
            assert(rest.last() == s.last());
            law_words(w, space, rest);
            lemma_words_joined(rest);
            lemma_joined_front(w, word_list(rest), space);
        }
    }
}

proof fn lemma_collapsed_words(s: Seq<char>)
    ensures
        word_list(collapsed(s)) == word_list(s),
    decreases s.len(),
{
    let space = seq![' '];
    let any = seq!['a'];
    if s.len() > 0 {
        if white_space(s[0]) {
            let t = trimmed_start(s);
            lemma_trimmed_start(s);
            let w = s.take(s.len() - t.len());
            assert(s =~= w + t);
            if t.len() == s.len() {
                assert(t =~= s);
            }
            lemma_collapsed_blank(w, t);
            law_words(any, w, t);
            law_words(any, space, collapsed(t));
            lemma_collapsed_words(t);
        } else {
            let n = lemma_first_word(s);
            let a = s.take(n);
            let b = s.skip(n);
            if n == 0 {
                assert(white_space(s[0]));
            }
            assert forall|i: int| 0 <= i < a.len() implies !white_space(#[trigger] a[i]) by {}
            if n == s.len() {
                assert(a =~= s);
                assert(b =~= Seq::<char>::empty());
                assert(collapsed(b) =~= Seq::<char>::empty());
                assert(a + collapsed(b) =~= a);
            } else {
                let t = trimmed_start(b);
                lemma_trimmed_start(b);
                let w = b.take(b.len() - t.len());
                assert(b[0] == s[n]);
                assert(b =~= w + t);
                if t.len() == b.len() {
                    assert(t =~= b);
                }
                lemma_collapsed_blank(w, t);
                assert(s =~= a + w + t);
                assert(a + (space + collapsed(t)) =~= a + space + collapsed(t));
                law_words(a, w, t);
                law_words(a, space, collapsed(t));
                lemma_collapsed_words(t);
            }
        }
    }
}

proof fn lemma_words_solid(s: Seq<char>)
    ensures
        forall|i: int|
            0 <= i < word_list(s).len() ==> (#[trigger] word_list(s)[i]).len() > 0 && solid(
                word_list(s)[i],
            ),
    decreases s.len(),
{
    if s.len() > 0 {
        if white_space(s[0]) {
            lemma_words_solid(s.skip(1));
            assert(word_list(s) == word_list(s.skip(1)));
        } else {
            let n = first_match(s, Pattern::Space) as int;
            lemma_first_match(s, Pattern::Space);
            let a = s.take(n);
            assert(n > 0);
            assert forall|i: int| 0 <= i < a.len() implies !white_space(#[trigger] a[i]) by {
                assert(!Pattern::Space.admits(s[i]));
            }
            lemma_words_solid(s.skip(n));
            let rest = word_list(s.skip(n));
            assert(word_list(s) == seq![a] + rest);
            assert forall|i: int| 0 <= i < word_list(s).len() implies (
            #[trigger] word_list(s)[i]).len() > 0 && solid(word_list(s)[i]) by {
                if i > 0 {
                    assert(word_list(s)[i] == rest[i - 1]);
                }
            }
        }
    }
}

/// The identity of a declaration in one line is its words with single spaces
/// between them, without the access level that they start with, unless that is
/// all.
pub proof fn law_identity_words(decl: Seq<char>)
    requires
        decl.len() > 0,
        !white_space(decl[0]) && !white_space(decl.last()),
        !decl.contains('\n'),
        decl[0] != '@',
    ensures
        ({
            let words = word_list(decl);
            let leading = words.len() > 1 && (words[0] == "public"@ || words[0] == "open"@
                || words[0] == "package"@);
            &&& leading ==> identity(decl) == joined(words.skip(1), seq![' '])
            &&& !leading ==> identity(decl) == joined(words, seq![' '])
        }),
{
    let space = seq![' '];
    let words = word_list(decl);
    let c = collapsed(decl);
    lemma_one_line(decl);
    lemma_identity_collapsed(decl);
    lemma_collapsed(decl);
    lemma_collapsed_words(decl);
    assert(evenly_spaced(c));
    lemma_words_joined(c);
    lemma_words_solid(decl);
    assert(c == joined(words, space));
    assert(words.len() > 0);
    let first = words[0];
    if words.len() == 1 {
        assert(words =~= seq![first]);
        assert(c == first);
        assert(solid(words[0]));
        assert(!leads_with(c, "public"@) && !leads_with(c, "open"@) && !leads_with(c, "package"@));
    } else {
        let rest = words.skip(1);
        assert(words =~= seq![first] + rest);
        lemma_joined_front(first, rest, space);
        let tail = joined(rest, space);
        assert(c == first + space + tail);
        assert(solid(words[0]));
        let n = first.len() as int;
        assert(c[n] == ' ');
        assert(tail.len() > 0 && !white_space(tail[0])) by {
            assert(c.last() == (space + tail).last());
            if tail.len() == 0 {
                assert(c.last() == ' ');
            } else {
                assert(c[n + 1] == tail[0]);
                assert(white_space(c[n]));
            }
        }
        assert(trimmed_start(space + tail) == tail) by {
            assert((space + tail).skip(1) =~= tail);
            assert((space + tail)[0] == ' ');
            assert(trimmed_start(tail) == tail);
        }
        assert(c.skip(n) =~= space + tail);
        lemma_leads_first(c, n, "public"@);
        lemma_leads_first(c, n, "open"@);
        lemma_leads_first(c, n, "package"@);
        assert(c.take(n) =~= first);
    }
}

/// A line leads with an access level if that is its first word.
proof fn lemma_leads_first(c: Seq<char>, n: int, keyword: Seq<char>)
    requires
        0 <= n < c.len(),
        solid(c.take(n)),
        white_space(c[n]),
        access_level(keyword),
    ensures
        leads_with(c, keyword) <==> c.take(n) == keyword,
        leads_with(c, keyword) ==> keyword.len() == n,
{
    lemma_keywords_solid(keyword);
    let k = keyword.len() as int;
    if leads_with(c, keyword) {
        assert(keyword =~= c.subrange(0, k));
        if k < n {
            assert(c.take(n)[k] == c[k]);
        }
        if n < k {
            assert(keyword[n] == c[n]);
        }
        assert(c.take(n) =~= keyword);
    }
    if c.take(n) == keyword {
        assert(keyword =~= c.subrange(0, k));
    }
}

/// The access level that a line starts with is taken off with the white space
/// behind it; a line that starts with another word, or that is one word, stays
/// as it is.
pub proof fn law_access_level_taken_off(word: Seq<char>, space: Seq<char>, s: Seq<char>)
    requires
        forall|i: int| 0 <= i < word.len() ==> !white_space(#[trigger] word[i]),
        space.len() > 0,
        forall|i: int| 0 <= i < space.len() ==> white_space(#[trigger] space[i]),
        s.len() > 0 ==> !white_space(s[0]),
    ensures
        word == "public"@ || word == "open"@ || word == "package"@ ==> without_access(
            word + space + s,
        ) == s,
        word != "public"@ && word != "open"@ && word != "package"@ ==> without_access(
            word + space + s,
        ) == word + space + s,
        without_access(word) == word,
{
    let line = word + space + s;
    let n = word.len() as int;
    assert(line.take(n) =~= word);
    assert(line[n] == space[0]);
    lemma_leads_first(line, n, "public"@);
    lemma_leads_first(line, n, "open"@);
    lemma_leads_first(line, n, "package"@);
    assert(line.skip(n) =~= space + s);
    lemma_trimmed_start_space(space, s);
    assert(trimmed_start(s) == s);
    assert(!leads_with(word, "public"@) && !leads_with(word, "open"@) && !leads_with(
        word,
        "package"@,
    ));
}

/// What comes behind the first line of a declaration makes no difference to its
/// identity, nor does white space at the end of that line.
pub proof fn law_rest_ignored(line: Seq<char>, space: Seq<char>, rest: Seq<char>)
    requires
        line.len() > 0,
        !white_space(line[0]) && !white_space(line.last()),
        !line.contains('\n'),
        line[0] != '@',
        forall|i: int| 0 <= i < space.len() ==> white_space(#[trigger] space[i]),
        !space.contains('\n'),
    ensures
        identity(line + space) == identity(line),
        identity(line + space + seq!['\n'] + rest) == identity(line),
{
    let none = Seq::<char>::empty();
    let p = Pattern::Char('\n');
    let front = line + space;
    let n = front.len() as int;
    let a = front;
    let b = front + seq!['\n'] + rest;
    assert forall|i: int| 0 <= i < n implies !p.admits(#[trigger] a[i]) by {
        if i < line.len() {
            assert(a[i] == line[i]);
            assert(line.contains(line[i]));
        } else {
            assert(a[i] == space[i - line.len()]);
            assert(space.contains(space[i - line.len()]));
        }
    }
    assert forall|i: int| 0 <= i < n implies !p.admits(#[trigger] b[i]) by {
        assert(b[i] == a[i]);
    }
    assert(b[n] == '\n');
    lemma_first_match_is(a, p, n);
    lemma_first_match_is(b, p, n);
    assert(a.take(n) =~= front);
    assert(b.take(n) =~= front);
    lemma_opening(a);
    lemma_opening(b);
    lemma_one_line(line);
    law_trimmed(none, line, space);
}

} // verus!
