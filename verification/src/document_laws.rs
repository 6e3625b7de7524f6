//! What stands in a Markdown document, in terms of the package.

use vstd::prelude::*;

use crate::html_laws::{lemma_occurs_add, lemma_occurs_around};
use crate::markdown::{
    below, entry_md, groups_md, heading_mark, line_end, model_modules_md, nodes_md, package_md,
};
use crate::model::{ExtensionTree, ModuleTree, PackageTree, SymbolTree};
use crate::text::{first_line, occurs_at, occurs_in};

verus! {

/// Whether a declaration stands at a place in a list of trees: at `[i]` is the
/// tree `i`, at `[i, j]` its member `j`, and so on.
pub open spec fn found_at(f: Seq<SymbolTree>, place: Seq<int>, t: SymbolTree) -> bool
    decreases place.len(),
{
    &&& place.len() > 0
    &&& 0 <= place[0] < f.len()
    &&& if place.len() == 1 {
        f[place[0]] == t
    } else {
        found_at(f[place[0]].members, place.skip(1), t)
    }
}

/// The heading marks and the code block of a declaration: `level` number signs,
/// the first line as a heading, and the whole text as code.
pub open spec fn block_of(decl: Seq<char>, level: nat) -> Seq<char> {
    Seq::new(level, |i: int| '#') + " `"@ + first_line(decl) + "`\n\n"@ + code_of(decl) + "\n\n"@
}

/// A text as a code block. The end of its last line is put in where it is
/// missing.
pub open spec fn code_of(decl: Seq<char>) -> Seq<char> {
    "```swift\n"@ + decl + (if decl.len() > 0 && decl.last() == '\n' {
        seq![]
    } else {
        seq!['\n']
    }) + "```"@
}

/// A number, but at most six.
pub open spec fn at_most_six(n: nat) -> nat {
    if n < 6 {
        n
    } else {
        6
    }
}

proof fn lemma_block(decl: Seq<char>, level: nat)
    ensures
        entry_md(decl, level) == block_of(decl, at_most_six(level)),
{
    reveal_strlit(" `");
    reveal_strlit("`\n\n```swift\n");
    reveal_strlit("`\n\n");
    reveal_strlit("```swift\n");
    reveal_strlit("```\n\n");
    reveal_strlit("```");
    reveal_strlit("\n\n");
    reveal_strlit("\n");
    assert("`\n\n```swift\n"@ =~= "`\n\n"@ + "```swift\n"@);
    assert("```\n\n"@ =~= "```"@ + "\n\n"@);
    assert("\n"@ =~= seq!['\n']);
    assert(heading_mark(level) =~= Seq::new(at_most_six(level), |i: int| '#'));
    let head = heading_mark(level) + " `"@ + first_line(decl);
    let end = line_end(decl);
    assert(head + ("`\n\n"@ + "```swift\n"@) + decl + end + ("```"@ + "\n\n"@) =~= head + "`\n\n"@
        + ("```swift\n"@ + decl + end + "```"@) + "\n\n"@);
}

/// A declaration without members is its heading and its code block.
pub proof fn law_md_leaf(t: SymbolTree, level: nat)
    requires
        t.members.len() == 0,
    ensures
        t.md(level) == block_of(t.decl, at_most_six(level)),
{
    lemma_block(t.decl, level);
    assert(nodes_md(t.members, below(level)) =~= Seq::<char>::empty());
    assert(t.md(level) =~= entry_md(t.decl, level));
}

proof fn lemma_deep(t: SymbolTree, level: nat)
    requires
        level >= 6,
    ensures
        t.md(level) == t.md(6),
    decreases t,
{
    lemma_block(t.decl, level);
    lemma_block(t.decl, 6);
    lemma_deep_list(t.members, level);
}

proof fn lemma_deep_list(f: Seq<SymbolTree>, level: nat)
    requires
        level >= 6,
    ensures
        nodes_md(f, level) == nodes_md(f, 6),
    decreases f,
{
    if f.len() > 0 {
        lemma_deep_list(f.drop_last(), level);
        lemma_deep(f.last(), level);
    }
}

/// Another member comes behind the others, with its heading one level below,
/// though never below the sixth.
pub proof fn law_md_member_appended(t: SymbolTree, x: SymbolTree, level: nat)
    ensures
        (SymbolTree { decl: t.decl, members: t.members.push(x) }).md(level) == t.md(level) + x.md(
            at_most_six(level + 1),
        ),
{
    let more = SymbolTree { decl: t.decl, members: t.members.push(x) };
    let next = below(level);
    assert(more.members.drop_last() =~= t.members);
    assert(nodes_md(more.members, next) == nodes_md(t.members, next) + x.md(next));
    if level >= 6 {
        lemma_deep(x, next);
    }
    assert(x.md(next) == x.md(at_most_six(level + 1)));
    assert(more.md(level) =~= t.md(level) + x.md(next));
}

proof fn lemma_node_in_list(f: Seq<SymbolTree>, i: int, level: nat, p: Seq<char>)
    requires
        0 <= i < f.len(),
        occurs_in(f[i].md(level), p),
    ensures
        occurs_in(nodes_md(f, level), p),
    decreases f.len(),
{
    let h = f.drop_last();
    lemma_occurs_add(nodes_md(h, level), f.last().md(level), p);
    if i < h.len() {
        assert(h[i] == f[i]);
        lemma_node_in_list(h, i, level, p);
    }
}

proof fn lemma_found_in_list(f: Seq<SymbolTree>, place: Seq<int>, t: SymbolTree, level: nat)
    requires
        found_at(f, place, t),
        0 < level <= 6,
    ensures
        occurs_in(
            nodes_md(f, level),
            block_of(t.decl, at_most_six((level + place.len() - 1) as nat)),
        ),
    decreases place.len(),
{
    let i = place[0];
    let p = block_of(t.decl, at_most_six((level + place.len() - 1) as nat));
    let x = f[i];
    if place.len() == 1 {
        lemma_block(t.decl, level);
        let none = Seq::<char>::empty();
        assert(occurs_in(p, p)) by {
            assert(p.subrange(0, p.len() as int) =~= p);
            assert(occurs_at(p, p, 0));
        }
        lemma_occurs_add(entry_md(x.decl, level), nodes_md(x.members, below(level)), p);
    } else {
        lemma_found_in_list(x.members, place.skip(1), t, below(level));
        lemma_occurs_add(entry_md(x.decl, level), nodes_md(x.members, below(level)), p);
    }
    lemma_node_in_list(f, i, level, p);
}

proof fn lemma_module_in_document(p: PackageTree, m: int, q: Seq<char>)
    requires
        0 <= m < p.modules.len(),
        occurs_in(p.modules[m].md(), q),
    ensures
        occurs_in(package_md(p), q),
{
    lemma_module_in_list(p.modules, m, q);
    let head = "# "@ + p.package + "\n\n_Public API surface. Access level: `"@ + p.access_level
        + "`._\n\n"@;
    lemma_occurs_add(head, model_modules_md(p.modules), q);
}

proof fn lemma_module_in_list(f: Seq<ModuleTree>, m: int, q: Seq<char>)
    requires
        0 <= m < f.len(),
        occurs_in(f[m].md(), q),
    ensures
        occurs_in(model_modules_md(f), q),
    decreases f.len(),
{
    let h = f.drop_last();
    lemma_occurs_add(model_modules_md(h), f.last().md(), q);
    if m < h.len() {
        assert(h[m] == f[m]);
        lemma_module_in_list(h, m, q);
    }
}

proof fn lemma_group_in_list(f: Seq<ExtensionTree>, e: int, q: Seq<char>)
    requires
        0 <= e < f.len(),
        occurs_in(f[e].md(), q),
    ensures
        occurs_in(groups_md(f), q),
    decreases f.len(),
{
    let h = f.drop_last();
    lemma_occurs_add(groups_md(h), f.last().md(), q);
    if e < h.len() {
        assert(h[e] == f[e]);
        lemma_group_in_list(h, e, q);
    }
}

proof fn lemma_in_module(m: ModuleTree, q: Seq<char>)
    ensures
        m.symbols.len() > 0 && occurs_in(nodes_md(m.symbols, 3), q) ==> occurs_in(m.md(), q),
        m.extensions.len() > 0 && occurs_in(groups_md(m.extensions), q) ==> occurs_in(m.md(), q),
{
    let head = "## Module `"@ + m.name + "`\n\n"@;
    let nodes = nodes_md(m.symbols, 3);
    let groups = groups_md(m.extensions);
    lemma_occurs_add(nodes, groups, q);
    lemma_occurs_add("_No own symbols._\n\n"@, groups, q);
    lemma_occurs_add(head, nodes + groups, q);
    lemma_occurs_add(head, "_No own symbols._\n\n"@ + groups, q);
}

/// The document holds each declaration of a module, however deeply nested, with
/// its first line as a heading and its whole text as code. The headings of those
/// at the top are of the third level, those of their members of the fourth, and
/// so on down to the sixth.
pub proof fn law_declaration_shown(p: PackageTree, m: int, place: Seq<int>, t: SymbolTree)
    requires
        0 <= m < p.modules.len(),
        found_at(p.modules[m].symbols, place, t),
    ensures
        occurs_in(package_md(p), block_of(t.decl, at_most_six((place.len() + 2) as nat))),
        occurs_in(package_md(p), code_of(t.decl)),
{
    let block = block_of(t.decl, at_most_six((place.len() + 2) as nat));
    lemma_found_in_list(p.modules[m].symbols, place, t, 3);
    lemma_in_module(p.modules[m], block);
    lemma_module_in_document(p, m, block);
    lemma_code_in(package_md(p), t.decl, at_most_six((place.len() + 2) as nat));
}

/// The same holds of the declarations of an extension group, one level below.
pub proof fn law_extension_shown(p: PackageTree, m: int, e: int, place: Seq<int>, t: SymbolTree)
    requires
        0 <= m < p.modules.len(),
        0 <= e < p.modules[m].extensions.len(),
        found_at(p.modules[m].extensions[e].symbols, place, t),
    ensures
        occurs_in(package_md(p), block_of(t.decl, at_most_six((place.len() + 3) as nat))),
        occurs_in(package_md(p), code_of(t.decl)),
        occurs_in(
            package_md(p),
            "### Extensions to `"@ + p.modules[m].extensions[e].extended_module + "`\n\n"@,
        ),
{
    let block = block_of(t.decl, at_most_six((place.len() + 3) as nat));
    let x = p.modules[m].extensions[e];
    let head = "### Extensions to `"@ + x.extended_module + "`\n\n"@;
    lemma_found_in_list(x.symbols, place, t, 4);
    lemma_occurs_add(head, nodes_md(x.symbols, 4), block);
    lemma_group_in_list(p.modules[m].extensions, e, block);
    lemma_in_module(p.modules[m], block);
    lemma_module_in_document(p, m, block);
    lemma_code_in(package_md(p), t.decl, at_most_six((place.len() + 3) as nat));
    lemma_itself(head);
    lemma_occurs_add(head, nodes_md(x.symbols, 4), head);
    lemma_group_in_list(p.modules[m].extensions, e, head);
    lemma_in_module(p.modules[m], head);
    lemma_module_in_document(p, m, head);
}

proof fn lemma_itself(p: Seq<char>)
    ensures
        occurs_in(p, p),
{
    assert(p.subrange(0, p.len() as int) =~= p);
    assert(occurs_at(p, p, 0));
}

proof fn lemma_code_in(document: Seq<char>, decl: Seq<char>, level: nat)
    requires
        occurs_in(document, block_of(decl, level)),
    ensures
        occurs_in(document, code_of(decl)),
{
    let block = block_of(decl, level);
    let at = choose|at: int| occurs_at(document, block, at);
    let a = document.take(at);
    let b = document.skip(at + block.len());
    assert(document =~= a + block + b);
    lemma_itself(code_of(decl));
    lemma_occurs_around(
        Seq::new(level, |i: int| '#') + " `"@ + first_line(decl) + "`\n\n"@,
        code_of(decl),
        "\n\n"@,
        code_of(decl),
    );
    lemma_occurs_around(a, block, b, code_of(decl));
}

/// A document starts with the name of the package and the access level. Without
/// modules, that is all.
pub proof fn law_document_head(p: PackageTree)
    requires
        p.modules.len() == 0,
    ensures
        package_md(p) == "# "@ + p.package + "\n\n_Public API surface. Access level: `"@
            + p.access_level + "`._\n\n"@,
{
    let head = "# "@ + p.package + "\n\n_Public API surface. Access level: `"@ + p.access_level
        + "`._\n\n"@;
    assert(model_modules_md(p.modules) =~= Seq::<char>::empty());
    assert(package_md(p) =~= head);
}

/// Another module comes behind the others.
pub proof fn law_module_appended(p: PackageTree, m: ModuleTree)
    ensures
        package_md(PackageTree { modules: p.modules.push(m), ..p }) == package_md(p) + m.md(),
{
    let more = PackageTree { modules: p.modules.push(m), ..p };
    assert(more.modules.drop_last() =~= p.modules);
    assert(package_md(more) =~= package_md(p) + m.md());
}

/// A module is its heading, its declarations one after the other, and its
/// extension groups one after the other. Where there are none of one or of
/// both, that is said instead.
pub proof fn law_module_parts(m: ModuleTree, x: SymbolTree, e: ExtensionTree)
    ensures
        m.symbols.len() == 0 && m.extensions.len() == 0 ==> m.md() == "## Module `"@ + m.name
            + "`\n\n_No symbol graph emitted._\n\n"@,
        m.symbols.len() == 0 && m.extensions.len() == 0 ==> (ModuleTree {
            symbols: seq![x],
            ..m
        }).md() == "## Module `"@ + m.name + "`\n\n"@ + x.md(3),
        m.symbols.len() == 0 && m.extensions.len() == 0 ==> (ModuleTree {
            extensions: seq![e],
            ..m
        }).md() == "## Module `"@ + m.name + "`\n\n_No own symbols._\n\n"@ + e.md(),
        m.symbols.len() > 0 && m.extensions.len() == 0 ==> (ModuleTree {
            symbols: m.symbols.push(x),
            ..m
        }).md() == m.md() + x.md(3),
        m.symbols.len() > 0 || m.extensions.len() > 0 ==> (ModuleTree {
            extensions: m.extensions.push(e),
            ..m
        }).md() == m.md() + e.md(),
{
    reveal_strlit("`\n\n_No symbol graph emitted._\n\n");
    reveal_strlit("`\n\n_No own symbols._\n\n");
    reveal_strlit("`\n\n");
    reveal_strlit("_No symbol graph emitted._\n\n");
    reveal_strlit("_No own symbols._\n\n");
    assert("`\n\n_No symbol graph emitted._\n\n"@ =~= "`\n\n"@ + "_No symbol graph emitted._\n\n"@);
    assert("`\n\n_No own symbols._\n\n"@ =~= "`\n\n"@ + "_No own symbols._\n\n"@);
    let none = Seq::<char>::empty();
    assert(groups_md(seq![]) =~= none);
    assert(nodes_md(seq![], 3) =~= none);
    assert(seq![x].drop_last() =~= seq![]);
    assert(seq![e].drop_last() =~= seq![]);
    assert(nodes_md(seq![x], 3) =~= x.md(3)) by {
        assert(nodes_md(seq![x], 3) == nodes_md(seq![x].drop_last(), 3) + seq![x].last().md(3));
    }
    assert(groups_md(seq![e]) =~= e.md()) by {
        assert(groups_md(seq![e]) == groups_md(seq![e].drop_last()) + seq![e].last().md());
    }
    assert(m.symbols.push(x).drop_last() =~= m.symbols);
    assert(m.extensions.push(e).drop_last() =~= m.extensions);
    let head = "## Module `"@ + m.name + "`\n\n"@;
    if m.symbols.len() == 0 && m.extensions.len() == 0 {
        assert(m.extensions =~= seq![]);
        assert((ModuleTree { symbols: seq![x], ..m }).md() =~= head + x.md(3));
        assert((ModuleTree { extensions: seq![e], ..m }).md() =~= head + "_No own symbols._\n\n"@
            + e.md());
    }
    if m.symbols.len() > 0 && m.extensions.len() == 0 {
        assert(m.extensions =~= seq![]);
        let more = ModuleTree { symbols: m.symbols.push(x), ..m };
        assert(nodes_md(more.symbols, 3) == nodes_md(m.symbols, 3) + x.md(3));
        assert(more.md() =~= m.md() + x.md(3));
    }
    if m.symbols.len() > 0 || m.extensions.len() > 0 {
        let more = ModuleTree { extensions: m.extensions.push(e), ..m };
        assert(groups_md(more.extensions) == groups_md(m.extensions) + e.md());
        if m.extensions.len() == 0 {
            assert(m.extensions =~= seq![]);
        }
        assert(more.md() =~= m.md() + e.md());
    }
}

/// An extension group is its heading and its declarations one after the other.
pub proof fn law_group_parts(e: ExtensionTree, x: SymbolTree)
    ensures
        e.symbols.len() == 0 ==> e.md() == "### Extensions to `"@ + e.extended_module + "`\n\n"@,
        (ExtensionTree { symbols: e.symbols.push(x), ..e }).md() == e.md() + x.md(4),
{
    let head = "### Extensions to `"@ + e.extended_module + "`\n\n"@;
    let more = ExtensionTree { symbols: e.symbols.push(x), ..e };
    assert(more.symbols.drop_last() =~= e.symbols);
    assert(nodes_md(more.symbols, 4) == nodes_md(e.symbols, 4) + x.md(4));
    assert(more.md() =~= e.md() + x.md(4));
    if e.symbols.len() == 0 {
        assert(nodes_md(e.symbols, 4) =~= Seq::<char>::empty());
        assert(e.md() =~= head);
    }
}

} // verus!
