//! What holds of the text of every declaration.

use vstd::prelude::*;

use crate::declaration::{
    access_behind, attribute_count, blank, constraint_text, constraints_text, declaration, left_out,
    spelled, with_access,
};
use crate::identity_laws::{inked, lemma_inked_add, lemma_inked_blank};
use crate::order::{law_stable_sort, stable_sort, text_order, Order, Ranked};
use crate::order_laws::law_sort_texts;
use crate::symbols::{ConstraintText, FragmentText, SymbolEntry};
use crate::text::{joined, occurs_at, occurs_in, white_space};
use crate::text_laws::spaces;

verus! {

/// The leading attributes of a declaration are kept. Where there is more than
/// attributes, the text starts with them, and they stay apart from what comes
/// after them wherever the fragments are apart or the access level follows.
pub proof fn law_attributes_kept(s: SymbolEntry)
    ensures
        ({
            let n = attribute_count(s.fragments) as int;
            let attributes = spelled(s.fragments.take(n));
            let rest = spelled(s.fragments.skip(n));
            let text = declaration(s);
            let end = attributes.len() as int;
            &&& occurs_in(text, attributes)
            &&& n < s.fragments.len() ==> attributes.is_prefix_of(text)
            &&& n < s.fragments.len() && end > 0 && (s.access_level.len() > 0 || rest.len() > 0
                && white_space(rest[0])) ==> white_space(attributes.last()) || (end < text.len()
                && white_space(text[end]))
        }),
{
    let n = attribute_count(s.fragments) as int;
    let attributes = spelled(s.fragments.take(n));
    let text = declaration(s);
    let at = if n < s.fragments.len() || s.access_level.len() == 0 {
        0
    } else {
        (s.access_level + " "@).len() as int
    };
    assert(text.subrange(at, at + attributes.len()) =~= attributes);
    assert(occurs_at(text, attributes, at));
    reveal_strlit(" ");
    if n < s.fragments.len() && attributes.len() > 0 && s.access_level.len() == 0 && !white_space(
        attributes.last(),
    ) {
        law_fragments_kept(s);
        let rest = spelled(s.fragments.skip(n));
        if rest.len() > 0 {
            assert((attributes + rest)[attributes.len() as int] == rest[0]);
        }
    }
}

proof fn lemma_spelled_first(f: Seq<FragmentText>)
    requires
        f.len() > 0,
    ensures
        spelled(f) == f[0].spelling + spelled(f.skip(1)),
    decreases f.len(),
{
    if f.len() == 1 {
        assert(f.drop_last() =~= Seq::<FragmentText>::empty());
        assert(f.skip(1) =~= Seq::<FragmentText>::empty());
        assert(spelled(f) =~= f[0].spelling + spelled(f.skip(1)));
    } else {
        lemma_spelled_first(f.drop_last());
        assert(f.drop_last().skip(1) =~= f.skip(1).drop_last());
        assert(spelled(f) =~= f[0].spelling + spelled(f.skip(1)));
    }
}

/// Without an access level, a declaration that starts with attributes starts
/// with its fragments, one after the other, unless there is white space at the
/// end of the attributes already.
pub proof fn law_fragments_kept(s: SymbolEntry)
    requires
        s.access_level.len() == 0,
        spelled(s.fragments.take(attribute_count(s.fragments) as int)).len() > 0,
        !white_space(spelled(s.fragments.take(attribute_count(s.fragments) as int)).last()),
    ensures
        ({
            let n = attribute_count(s.fragments) as int;
            let all = spelled(s.fragments.take(n)) + spelled(s.fragments.skip(n));
            &&& with_access(s.fragments, s.access_level) == all
            &&& all.is_prefix_of(declaration(s))
        }),
{
    let n = attribute_count(s.fragments) as int;
    let f = s.fragments;
    let attributes = spelled(f.take(n));
    let all = attributes + spelled(f.skip(n));
    lemma_attribute_count(f);
    if n < f.len() {
        lemma_spelled_first(f.skip(n));
        assert(f.skip(n).skip(1) =~= f.skip(n + 1));
    } else {
        assert(f.skip(n) =~= Seq::<FragmentText>::empty());
    }
    assert(with_access(f, s.access_level) =~= all);
    assert(all =~= declaration(s).subrange(0, all.len() as int));
}

proof fn lemma_attribute_count(f: Seq<FragmentText>)
    ensures
        attribute_count(f) <= f.len(),
    decreases f.len(),
{
    if f.len() > 0 {
        lemma_attribute_count(f.skip(1));
    }
}

/// The access level is part of the text, with a space after it.
pub proof fn law_access_level_shown(s: SymbolEntry)
    requires
        s.access_level.len() > 0,
    ensures
        occurs_in(declaration(s), s.access_level + " "@),
{
    let n = attribute_count(s.fragments) as int;
    let attributes = spelled(s.fragments.take(n));
    let level = s.access_level + " "@;
    let text = declaration(s);
    if n < s.fragments.len() {
        let a = attributes.len() as int;
        if text.len() >= a + level.len() && text.subrange(a, a + level.len()) =~= level {
            assert(occurs_at(text, level, a));
        } else {
            let b = a + " "@.len();
            assert(text.subrange(b, b + level.len()) =~= level);
            assert(occurs_at(text, level, b));
        }
    } else {
        assert(text.subrange(0, level.len() as int) =~= level);
        assert(occurs_at(text, level, 0));
    }
}

proof fn lemma_map_multiset(a: Seq<ConstraintText>, b: Seq<ConstraintText>)
    requires
        a.to_multiset() == b.to_multiset(),
    ensures
        Seq::new(a.len(), |i: int| constraint_text(a[i])).to_multiset() == Seq::new(
            b.len(),
            |i: int| constraint_text(b[i]),
        ).to_multiset(),
    decreases a.len(),
{
    broadcast use vstd::seq_lib::group_to_multiset_ensures;

    let x = Seq::new(a.len(), |i: int| constraint_text(a[i]));
    let y = Seq::new(b.len(), |i: int| constraint_text(b[i]));
    a.to_multiset_ensures();
    b.to_multiset_ensures();
    if a.len() > 0 {
        let c = a.last();
        let p = a.drop_last();
        assert(a.to_multiset().count(c) > 0);
        assert(b.contains(c));
        let k = choose|k: int| 0 <= k < b.len() && b[k] == c;
        let q = b.remove(k);
        assert(a =~= p.push(c));
        assert(p.to_multiset() =~= a.to_multiset().remove(c));
        vstd::seq_lib::to_multiset_remove(b, k);
        assert(q.to_multiset() =~= b.to_multiset().remove(c));
        lemma_map_multiset(p, q);
        let px = Seq::new(p.len(), |i: int| constraint_text(p[i]));
        let qy = Seq::new(q.len(), |i: int| constraint_text(q[i]));
        assert(x =~= px.push(constraint_text(c)));
        vstd::seq_lib::to_multiset_remove(y, k);
        assert(y.remove(k) =~= qy);
        assert(y[k] == constraint_text(c));
        assert(y.to_multiset().count(constraint_text(c)) > 0) by {
            assert(y.contains(y[k]));
        }
        assert(x.to_multiset() =~= y.to_multiset());
    } else {
        assert(x =~= y);
    }
}

/// The order in which constraints are given makes no difference.
pub proof fn law_constraint_order(a: Seq<ConstraintText>, b: Seq<ConstraintText>)
    requires
        a.to_multiset() == b.to_multiset(),
    ensures
        constraints_text(a) == constraints_text(b),
{
    lemma_map_multiset(a, b);
    law_sort_texts(
        Seq::new(a.len(), |i: int| constraint_text(a[i])),
        Seq::new(b.len(), |i: int| constraint_text(b[i])),
    );
}

// The text of a declaration, in terms of its fragments.

/// The spellings of fragments, one after the other.
pub open spec fn concatenated(f: Seq<FragmentText>) -> Seq<char> {
    f.map_values(|x: FragmentText| x.spelling).flatten()
}

proof fn lemma_concatenated(f: Seq<FragmentText>)
    ensures
        spelled(f) == concatenated(f),
    decreases f.len(),
{
    let all = f.map_values(|x: FragmentText| x.spelling);
    if f.len() > 0 {
        let p = f.drop_last();
        let front = p.map_values(|x: FragmentText| x.spelling);
        lemma_concatenated(p);
        assert(all =~= front.push(f.last().spelling));
        front.lemma_flatten_push(f.last().spelling);
    } else {
        assert(all =~= Seq::<Seq<char>>::empty());
        assert(all.flatten() =~= Seq::<char>::empty());
    }
}

/// Whether the first `n` fragments, and no more, are attributes.
pub open spec fn starts_with_attributes(f: Seq<FragmentText>, n: int) -> bool {
    &&& 0 <= n <= f.len()
    &&& forall|k: int| 0 <= k < n ==> (#[trigger] f[k]).kind == "attribute"@
    &&& n < f.len() ==> f[n].kind != "attribute"@
}

proof fn lemma_starts_with_attributes(f: Seq<FragmentText>, n: int)
    requires
        starts_with_attributes(f, n),
    ensures
        attribute_count(f) == n,
    decreases f.len(),
{
    if n > 0 {
        assert(f[0].kind == "attribute"@);
        let r = f.skip(1);
        assert forall|k: int| 0 <= k < n - 1 implies (#[trigger] r[k]).kind == "attribute"@ by {
            assert(r[k] == f[k + 1]);
        }
        lemma_starts_with_attributes(r, n - 1);
    }
}

/// A declaration is put together from all of its fragments. The access level,
/// with a space behind it, stands behind the attributes that come first, set off
/// from them by a space where they do not end in white space; a fragment of
/// white space in that place gives way to it. Where there are only attributes,
/// the access level stands before them. Without an access level nothing is put
/// in, and only white space at the very start, or behind white space, is left
/// out.
pub proof fn law_declaration_text(s: SymbolEntry, n: int)
    requires
        starts_with_attributes(s.fragments, n),
        s.constraints.len() == 0,
    ensures
        ({
            let f = s.fragments;
            let level = s.access_level;
            let text = declaration(s);
            let attributes = concatenated(f.take(n));
            let gap = if attributes.len() > 0 && !white_space(attributes.last()) {
                seq![' ']
            } else {
                seq![]
            };
            &&& n == f.len() && level.len() == 0 ==> text == attributes
            &&& n == f.len() && level.len() > 0 ==> text == level + seq![' '] + attributes
            &&& n < f.len() && level.len() > 0 && !spaces(f[n].spelling) ==> text == attributes
                + gap + level + seq![' '] + f[n].spelling + concatenated(f.skip(n + 1))
            &&& n < f.len() && level.len() > 0 && spaces(f[n].spelling) ==> text == attributes
                + gap + level + seq![' '] + concatenated(f.skip(n + 1))
            &&& n < f.len() && level.len() == 0 && (!spaces(f[n].spelling) || gap.len() > 0)
                ==> text == attributes + f[n].spelling + concatenated(f.skip(n + 1))
            &&& n < f.len() && level.len() == 0 && spaces(f[n].spelling) && gap.len() == 0
                ==> text == attributes + concatenated(f.skip(n + 1))
        }),
{
    let f = s.fragments;
    reveal_strlit(" ");
    lemma_starts_with_attributes(f, n);
    lemma_concatenated(f.take(n));
    if n < f.len() {
        lemma_concatenated(f.skip(n + 1));
    }
    assert(" "@ =~= seq![' ']);
    let text = with_access(f, s.access_level);
    assert(declaration(s) == text);
    let attributes = concatenated(f.take(n));
    if n < f.len() {
        let rest = concatenated(f.skip(n + 1));
        assert(spaces(f[n].spelling) <==> blank(f[n].spelling));
        if s.access_level.len() > 0 {
            if attributes.len() > 0 && !white_space(attributes.last()) {
                assert(attributes + (seq![' '] + s.access_level + seq![' ']) =~= attributes
                    + seq![' '] + s.access_level + seq![' ']);
            } else {
                assert(attributes + (s.access_level + seq![' ']) =~= attributes
                    + Seq::<char>::empty() + s.access_level + seq![' ']);
            }
            if spaces(f[n].spelling) {
                let front = attributes + access_behind(attributes, s.access_level);
                assert(front + Seq::<char>::empty() + rest =~= front + rest);
            }
        } else {
            assert(attributes + Seq::<char>::empty() =~= attributes);
            if left_out(f[n].spelling, attributes, s.access_level) {
                assert(attributes + Seq::<char>::empty() + Seq::<char>::empty() + rest
                    =~= attributes + rest);
            }
        }
    }
}

proof fn lemma_inked_concatenated(f: Seq<FragmentText>, n: int)
    requires
        0 <= n < f.len(),
    ensures
        inked(concatenated(f.skip(n))) == inked(f[n].spelling) + inked(
            concatenated(f.skip(n + 1)),
        ),
{
    lemma_concatenated(f.skip(n));
    lemma_concatenated(f.skip(n + 1));
    lemma_spelled_first(f.skip(n));
    assert(f.skip(n).skip(1) =~= f.skip(n + 1));
    lemma_inked_add(f[n].spelling, concatenated(f.skip(n + 1)));
}

/// Apart from white space, a declaration is its fragments and the access level,
/// all of them and nothing else: the attributes that come first, the access
/// level, and the rest. It ends with all fragments behind the first that is no
/// attribute.
pub proof fn law_every_fragment_kept(s: SymbolEntry, n: int)
    requires
        starts_with_attributes(s.fragments, n),
        s.constraints.len() == 0,
    ensures
        n < s.fragments.len() ==> inked(declaration(s)) == inked(concatenated(s.fragments.take(n)))
            + inked(s.access_level) + inked(concatenated(s.fragments.skip(n))),
        n < s.fragments.len() ==> concatenated(s.fragments.skip(n + 1)).is_suffix_of(
            declaration(s),
        ),
        n == s.fragments.len() ==> inked(declaration(s)) == inked(s.access_level) + inked(
            concatenated(s.fragments),
        ),
{
    broadcast use lemma_inked_add;

    law_declaration_text(s, n);
    let f = s.fragments;
    let text = declaration(s);
    let attributes = concatenated(f.take(n));
    let none = Seq::<char>::empty();
    lemma_inked_blank(none);
    lemma_inked_blank(seq![' ']);
    if n < f.len() {
        let rest = concatenated(f.skip(n + 1));
        let front = text.take(text.len() - rest.len());
        assert(text =~= front + rest);
        assert(rest =~= text.subrange(text.len() - rest.len(), text.len() as int));
        lemma_inked_concatenated(f, n);
        if spaces(f[n].spelling) {
            lemma_inked_blank(f[n].spelling);
        }
        if s.access_level.len() == 0 {
            lemma_inked_blank(s.access_level);
        }
        assert(inked(text) =~= inked(attributes) + inked(s.access_level) + (inked(f[n].spelling)
            + inked(rest)));
    } else {
        assert(f.take(n) =~= f);
        if s.access_level.len() == 0 {
            lemma_inked_blank(s.access_level);
        }
        assert(inked(text) =~= inked(s.access_level) + inked(attributes));
    }
}

/// A symbol without the constraints of its extension.
pub open spec fn unconstrained(s: SymbolEntry) -> SymbolEntry {
    SymbolEntry { constraints: seq![], ..s }
}

/// The constraints of an extension stand in a `where` clause at the end of the
/// declaration, unless that has one already.
pub proof fn law_where_clause(s: SymbolEntry)
    ensures
        s.constraints.len() > 0 && !occurs_in(declaration(unconstrained(s)), " where "@)
            ==> declaration(s) == declaration(unconstrained(s)) + " where "@ + constraints_text(
            s.constraints,
        ),
        s.constraints.len() == 0 || occurs_in(declaration(unconstrained(s)), " where "@)
            ==> declaration(s) == declaration(unconstrained(s)),
{
}

/// A conformance is written with a colon, the same type with two equals signs,
/// and anything else with its own name.
pub proof fn law_one_constraint(c: ConstraintText)
    ensures
        c.kind == "conformance"@ ==> constraints_text(seq![c]) == c.lhs + ": "@ + c.rhs,
        c.kind == "sameType"@ ==> constraints_text(seq![c]) == c.lhs + " == "@ + c.rhs,
        c.kind != "conformance"@ && c.kind != "sameType"@ ==> constraints_text(seq![c]) == c.lhs
            + " "@ + c.kind + " "@ + c.rhs,
{
    reveal_strlit("conformance");
    reveal_strlit("sameType");
    assert("conformance"@.len() != "sameType"@.len());
    let t = constraint_text(c);
    let texts = Seq::new(1, |i: int| constraint_text(seq![c][i]));
    assert(texts =~= seq![t]);
    law_stable_sort::<String>(texts);
    let r = stable_sort::<String>(texts);
    assert(r.contains(r[0]));
    assert(texts.contains(r[0]));
    assert(r =~= seq![t]);
}

/// Several constraints are listed in the order of their texts, with commas
/// between them.
pub proof fn law_constraints_listed(c: Seq<ConstraintText>)
    ensures
        exists|texts: Seq<Seq<char>>|
            #![trigger texts.to_multiset()]
            {
                &&& texts.to_multiset() == c.map_values(
                    |x: ConstraintText| constraints_text(seq![x]),
                ).to_multiset()
                &&& forall|i: int, j: int|
                    0 <= i < j < texts.len() ==> text_order(#[trigger] texts[i], #[trigger] texts[j])
                        != Order::Greater
                &&& constraints_text(c) == joined(texts, ", "@)
            },
{
    let each = c.map_values(|x: ConstraintText| constraints_text(seq![x]));
    let made = Seq::new(c.len(), |i: int| constraint_text(c[i]));
    assert forall|i: int| 0 <= i < c.len() implies each[i] == made[i] by {
        law_one_constraint(c[i]);
    }
    assert(each =~= made);
    law_stable_sort::<String>(made);
    let texts = stable_sort::<String>(made);
    assert forall|i: int, j: int| 0 <= i < j < texts.len() implies text_order(
        #[trigger] texts[i],
        #[trigger] texts[j],
    ) != Order::Greater by {
        assert(String::order(texts[i], texts[j]) != Order::Greater);
    }
    assert(texts.to_multiset() == each.to_multiset());
}

} // verus!
