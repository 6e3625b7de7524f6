//! The text of a declaration, put together from its fragments.

use vstd::prelude::*;

use crate::order::{sort, stable_sort, views};
use crate::symbols::{Constraint, ConstraintText, Fragment, FragmentText, Symbol, SymbolEntry};
use crate::text::{
    chars_of, contains_text, is_whitespace, join_strings, joined, occurs_in, same_text, strings,
    white_space,
};

verus! {

/// The spellings of fragments, one after the other.
pub open spec fn spelled(f: Seq<FragmentText>) -> Seq<char>
    decreases f.len(),
{
    if f.len() == 0 {
        seq![]
    } else {
        spelled(f.drop_last()) + f.last().spelling
    }
}

/// How many attribute fragments a declaration starts with.
pub open spec fn attribute_count(f: Seq<FragmentText>) -> nat
    decreases f.len(),
{
    if f.len() == 0 || f[0].kind != "attribute"@ {
        0
    } else {
        1 + attribute_count(f.skip(1))
    }
}

/// Whether a text is white space only.
pub open spec fn blank(s: Seq<char>) -> bool {
    forall|i: int| 0 <= i < s.len() ==> white_space(#[trigger] s[i])
}

/// The access level as it stands behind `attributes`: set off from them, and
/// with a space after it.
pub open spec fn access_behind(attributes: Seq<char>, access_level: Seq<char>) -> Seq<char> {
    if access_level.len() == 0 {
        seq![]
    } else if attributes.len() > 0 && !white_space(attributes.last()) {
        " "@ + access_level + " "@
    } else {
        access_level + " "@
    }
}

/// Whether the first fragment behind `attributes` is left out: a blank one, if
/// the access level stands in its place, or if there is white space or nothing
/// at all before it.
pub open spec fn left_out(
    fragment: Seq<char>,
    attributes: Seq<char>,
    access_level: Seq<char>,
) -> bool {
    blank(fragment) && (access_level.len() > 0 || attributes.len() == 0 || white_space(
        attributes.last(),
    ))
}

/// A declaration from its fragments. The access level, which is not among
/// them, goes behind the leading attributes; a blank fragment that follows
/// them is dropped for it. Where there are only attributes, it goes first.
pub open spec fn with_access(f: Seq<FragmentText>, access_level: Seq<char>) -> Seq<char> {
    let n = attribute_count(f) as int;
    let attributes = spelled(f.take(n));
    if n < f.len() {
        attributes + access_behind(attributes, access_level) + (if left_out(
            f[n].spelling,
            attributes,
            access_level,
        ) {
            seq![]
        } else {
            f[n].spelling
        }) + spelled(f.skip(n + 1))
    } else if access_level.len() > 0 {
        access_level + " "@ + attributes
    } else {
        attributes
    }
}

/// A constraint as it stands in a `where` clause.
pub open spec fn constraint_text(c: ConstraintText) -> Seq<char> {
    if c.kind == "conformance"@ {
        c.lhs + ": "@ + c.rhs
    } else if c.kind == "sameType"@ {
        c.lhs + " == "@ + c.rhs
    } else {
        c.lhs + " "@ + c.kind + " "@ + c.rhs
    }
}

/// The constraints of a `where` clause, in the order of their texts.
pub open spec fn constraints_text(c: Seq<ConstraintText>) -> Seq<char> {
    joined(
        stable_sort::<String>(Seq::new(c.len(), |i: int| constraint_text(c[i]))),
        ", "@,
    )
}

/// The declaration of a symbol, with the constraints of its extension unless
/// it has a `where` clause already.
pub open spec fn declaration(s: SymbolEntry) -> Seq<char> {
    let text = with_access(s.fragments, s.access_level);
    if s.constraints.len() > 0 && !occurs_in(text, " where "@) {
        text + " where "@ + constraints_text(s.constraints)
    } else {
        text
    }
}

/// How many attribute fragments a declaration starts with.
fn leading_attributes(fragments: &Vec<Fragment>) -> (r: usize)
    ensures
        r == attribute_count(views(fragments@)),
        r <= fragments@.len(),
{
    let ghost f = views(fragments@);
    let mut n: usize = 0;
    assert(f.skip(0) =~= f);
    while n < fragments.len() && same_text(fragments[n].kind.as_str(), "attribute")
        invariant
            f == views(fragments@),
            n <= fragments@.len(),
            attribute_count(f) == n + attribute_count(f.skip(n as int)),
        decreases fragments@.len() - n,
    {
        assert(f.skip(n as int).skip(1) =~= f.skip(n as int + 1));
        n += 1;
    }
    n
}

/// Appends the spellings of the fragments from `from` up to `to`.
fn spell(fragments: &Vec<Fragment>, from: usize, to: usize, out: &mut String)
    requires
        from <= to <= fragments@.len(),
    ensures
        final(out)@ == old(out)@ + spelled(views(fragments@).subrange(from as int, to as int)),
{
    let ghost f = views(fragments@).subrange(from as int, to as int);
    let ghost before = out@;
    let mut i: usize = from;
    assert(out@ =~= before + spelled(f.take(0)));
    while i < to
        invariant
            from <= i <= to <= fragments@.len(),
            f == views(fragments@).subrange(from as int, to as int),
            out@ == before + spelled(f.take(i - from)),
        decreases to - i,
    {
        assert(f.take(i - from + 1).drop_last() =~= f.take(i - from));
        assert(f.take(i - from + 1).last() == fragments@[i as int]@);
        out.push_str(fragments[i].spelling.as_str());
        assert(out@ =~= before + spelled(f.take(i - from + 1)));
        i += 1;
    }
    assert(f.take(to - from) =~= f);
}

/// Whether a string is white space only.
fn is_blank(text: &str) -> (r: bool)
    ensures
        r == blank(text@),
{
    let s = chars_of(text);
    for i in 0..s.len()
        invariant
            s@ == text@,
            forall|j: int| 0 <= j < i ==> white_space(#[trigger] s@[j]),
    {
        if !is_whitespace(s[i]) {
            return false;
        }
    }
    true
}

/// Whether a string ends with white space.
fn ends_blank(s: &str) -> (r: bool)
    ensures
        r == (s@.len() > 0 && white_space(s@.last())),
{
    let s = chars_of(s);
    s.len() > 0 && is_whitespace(s[s.len() - 1])
}

/// A declaration from its fragments, with the access level put in.
fn assemble(fragments: &Vec<Fragment>, access_level: &str) -> (r: String)
    ensures
        r@ == with_access(views(fragments@), access_level@),
{
    let ghost f = views(fragments@);
    let n = leading_attributes(fragments);
    let mut attributes = String::new();
    spell(fragments, 0, n, &mut attributes);
    assert(attributes@ =~= spelled(f.take(n as int)));
    if n == fragments.len() {
        if access_level.is_empty() {
            return attributes;
        }
        let mut out = access_level.to_string();
        out.push_str(" ");
        out.push_str(attributes.as_str());
        return out;
    }
    let mut out = attributes;
    let apart = out.as_str().is_empty() || ends_blank(out.as_str());
    let ghost before = out@;
    if !access_level.is_empty() {
        if !apart {
            out.push_str(" ");
        }
        out.push_str(access_level);
        out.push_str(" ");
        assert(out@ =~= before + access_behind(before, access_level@));
    } else {
        assert(out@ =~= before + access_behind(before, access_level@));
    }
    if !is_blank(fragments[n].spelling.as_str()) || (access_level.is_empty() && !apart) {
        out.push_str(fragments[n].spelling.as_str());
    } else {
        assert(out@ =~= out@ + Seq::<char>::empty());
    }
    spell(fragments, n + 1, fragments.len(), &mut out);
    out
}

/// A constraint as it stands in a `where` clause.
fn render_constraint(c: &Constraint) -> (r: String)
    ensures
        r@ == constraint_text(c@),
{
    let mut out = c.lhs.clone();
    if same_text(c.kind.as_str(), "conformance") {
        out.push_str(": ");
    } else if same_text(c.kind.as_str(), "sameType") {
        out.push_str(" == ");
    } else {
        out.push_str(" ");
        out.push_str(c.kind.as_str());
        out.push_str(" ");
    }
    out.push_str(c.rhs.as_str());
    out
}

/// The constraints of a `where` clause.
pub fn render_constraints(constraints: &Vec<Constraint>) -> (r: String)
    ensures
        r@ == constraints_text(views(constraints@)),
{
    let mut parts: Vec<String> = Vec::new();
    for i in 0..constraints.len()
        invariant
            parts@.len() == i,
            forall|j: int|
                0 <= j < i ==> (#[trigger] parts@[j])@ == constraint_text(constraints@[j]@),
    {
        parts.push(render_constraint(&constraints[i]));
    }
    let ghost texts = Seq::new(
        constraints@.len(),
        |i: int| constraint_text(views(constraints@)[i]),
    );
    assert(views(parts@) =~= texts);
    sort(&mut parts);
    assert(strings(parts@) =~= views(parts@));
    join_strings(&parts, ", ")
}

/// The declaration of a symbol.
pub fn render_declaration(sym: &Symbol) -> (r: String)
    ensures
        r@ == declaration(sym@),
{
    let mut out = assemble(&sym.declaration_fragments, sym.access_level.as_str());
    match &sym.swift_extension {
        Some(ext) => {
            if ext.constraints.len() > 0 && !contains_text(out.as_str(), " where ") {
                out.push_str(" where ");
                out.push_str(render_constraints(&ext.constraints).as_str());
            }
        },
        None => {},
    }
    out
}

} // verus!
