//! That the markup of a page depends on the shape of a package alone, not on
//! the texts in it.

use vstd::prelude::*;

use crate::html::{
    escaped, extensions_html, extensions_nav, module_id, modules_html, modules_nav, nav_html,
    navs_html, nodes_html, page_html, search_name,
};
use crate::html_laws::{groups_ids, law_escaped, list_ids, node_ids, page_ids, reserved};
use crate::model::{ExtensionTree, ModuleTree, PackageTree, SymbolTree};
use crate::symbol_name::short_name;
use crate::text::{decimal_digits, trimmed_end};

verus! {

/// How often a character stands in a text.
pub open spec fn count_char(s: Seq<char>, c: char) -> nat
    decreases s.len(),
{
    if s.len() == 0 {
        0
    } else if s.last() == c {
        count_char(s.drop_last(), c) + 1
    } else {
        count_char(s.drop_last(), c)
    }
}

/// Whether a character is one that markup is made of.
pub open spec fn markup_char(c: char) -> bool {
    c == '<' || c == '>' || c == '"'
}

/// Whether two declarations have the same number of members, at every depth.
pub open spec fn trees_alike(a: SymbolTree, b: SymbolTree) -> bool
    decreases a,
{
    forests_alike(a.members, b.members)
}

/// Whether two lists of declarations have the same shape.
pub open spec fn forests_alike(a: Seq<SymbolTree>, b: Seq<SymbolTree>) -> bool
    decreases a,
{
    &&& a.len() == b.len()
    &&& a.len() > 0 ==> forests_alike(a.drop_last(), b.drop_last()) && trees_alike(
        a.last(),
        b.last(),
    )
}

/// Whether two lists of extension groups have the same shape.
pub open spec fn groups_alike(a: Seq<ExtensionTree>, b: Seq<ExtensionTree>) -> bool
    decreases a.len(),
{
    &&& a.len() == b.len()
    &&& a.len() > 0 ==> groups_alike(a.drop_last(), b.drop_last()) && forests_alike(
        a.last().symbols,
        b.last().symbols,
    )
}

/// Whether two lists of modules have the same shape.
pub open spec fn modules_alike(a: Seq<ModuleTree>, b: Seq<ModuleTree>) -> bool
    decreases a.len(),
{
    &&& a.len() == b.len()
    &&& a.len() > 0 ==> modules_alike(a.drop_last(), b.drop_last()) && forests_alike(
        a.last().symbols,
        b.last().symbols,
    ) && groups_alike(a.last().extensions, b.last().extensions)
}

broadcast proof fn lemma_count_add(a: Seq<char>, b: Seq<char>, c: char)
    ensures
        #[trigger] count_char(a + b, c) == count_char(a, c) + count_char(b, c),
    decreases b.len(),
{
    if b.len() == 0 {
        assert(a + b =~= a);
    } else {
        assert((a + b).drop_last() =~= a + b.drop_last());
        lemma_count_add(a, b.drop_last(), c);
    }
}

proof fn lemma_absent(s: Seq<char>, c: char)
    requires
        forall|i: int| 0 <= i < s.len() ==> #[trigger] s[i] != c,
    ensures
        count_char(s, c) == 0,
    decreases s.len(),
{
    if s.len() > 0 {
        assert forall|i: int| 0 <= i < s.drop_last().len() implies #[trigger] s.drop_last()[i]
            != c by {
            assert(s[i] != c);
        }
        lemma_absent(s.drop_last(), c);
        assert(s[s.len() - 1] != c);
    }
}

/// A text adds no markup to a page.
pub proof fn law_text_adds_no_markup(s: Seq<char>, c: char)
    requires
        markup_char(c),
    ensures
        count_char(escaped(s), c) == 0,
{
    law_escaped(s);
    assert forall|i: int| 0 <= i < escaped(s).len() implies #[trigger] escaped(s)[i] != c by {
        assert(!reserved(escaped(s)[i]));
    }
    lemma_absent(escaped(s), c);
}

proof fn lemma_node_markup(a: SymbolTree, b: SymbolTree, x: Seq<char>, y: Seq<char>, c: char)
    requires
        trees_alike(a, b),
        markup_char(c),
    ensures
        count_char(a.html(x), c) == count_char(b.html(y), c),
        count_char(a.nav(x), c) == count_char(b.nav(y), c),
    decreases a, 1nat,
{
    broadcast use lemma_count_add;

    law_text_adds_no_markup(x, c);
    law_text_adds_no_markup(y, c);
    law_text_adds_no_markup(search_name(a.decl), c);
    law_text_adds_no_markup(search_name(b.decl), c);
    law_text_adds_no_markup(trimmed_end(a.decl), c);
    law_text_adds_no_markup(trimmed_end(b.decl), c);
    law_text_adds_no_markup(short_name(a.decl), c);
    law_text_adds_no_markup(short_name(b.decl), c);
    lemma_list_markup(a.members, b.members, x + "-m"@, y + "-m"@, c);
}

proof fn lemma_list_markup(
    a: Seq<SymbolTree>,
    b: Seq<SymbolTree>,
    x: Seq<char>,
    y: Seq<char>,
    c: char,
)
    requires
        forests_alike(a, b),
        markup_char(c),
    ensures
        count_char(nodes_html(a, x), c) == count_char(nodes_html(b, y), c),
        count_char(navs_html(a, x), c) == count_char(navs_html(b, y), c),
    decreases a, 0nat,
{
    broadcast use lemma_count_add;

    if a.len() > 0 {
        let n = (a.len() - 1) as nat;
        lemma_list_markup(a.drop_last(), b.drop_last(), x, y, c);
        assert(decreases_to!(a => a[a.len() - 1]));
        lemma_node_markup(
            a.last(),
            b.last(),
            x + decimal_digits(n),
            y + decimal_digits(n),
            c,
        );
    }
}

proof fn lemma_groups_markup(
    a: Seq<ExtensionTree>,
    b: Seq<ExtensionTree>,
    x: Seq<char>,
    c: char,
)
    requires
        groups_alike(a, b),
        markup_char(c),
    ensures
        count_char(extensions_html(a, x), c) == count_char(extensions_html(b, x), c),
        count_char(extensions_nav(a, x), c) == count_char(extensions_nav(b, x), c),
    decreases a.len(),
{
    broadcast use lemma_count_add;

    if a.len() > 0 {
        let id = x + decimal_digits((a.len() - 1) as nat);
        lemma_groups_markup(a.drop_last(), b.drop_last(), x, c);
        law_text_adds_no_markup(a.last().extended_module, c);
        law_text_adds_no_markup(b.last().extended_module, c);
        lemma_list_markup(a.last().symbols, b.last().symbols, id + "-s"@, id + "-s"@, c);
    }
}

proof fn lemma_modules_markup(a: Seq<ModuleTree>, b: Seq<ModuleTree>, c: char)
    requires
        modules_alike(a, b),
        markup_char(c),
    ensures
        count_char(modules_html(a), c) == count_char(modules_html(b), c),
        count_char(modules_nav(a), c) == count_char(modules_nav(b), c),
    decreases a.len(),
{
    broadcast use lemma_count_add;

    if a.len() > 0 {
        let id = module_id((a.len() - 1) as nat);
        let m = a.last();
        let n = b.last();
        lemma_modules_markup(a.drop_last(), b.drop_last(), c);
        law_text_adds_no_markup(m.name, c);
        law_text_adds_no_markup(n.name, c);
        lemma_list_markup(m.symbols, n.symbols, id + "-s"@, id + "-s"@, c);
        lemma_groups_markup(m.extensions, n.extensions, id + "-e"@, c);
    }
}

/// Pages of packages of one shape hold the same markup, whatever texts are in
/// the packages: as many `<`, as many `>` and as many `"`.
pub proof fn law_markup_by_shape(a: PackageTree, b: PackageTree, c: char)
    requires
        modules_alike(a.modules, b.modules),
        markup_char(c),
    ensures
        count_char(page_html(a), c) == count_char(page_html(b), c),
{
    broadcast use lemma_count_add;

    lemma_modules_markup(a.modules, b.modules, c);
    law_text_adds_no_markup(a.package + " – Public API"@, c);
    law_text_adds_no_markup(b.package + " – Public API"@, c);
    law_text_adds_no_markup(a.package, c);
    law_text_adds_no_markup(b.package, c);
    law_text_adds_no_markup(a.access_level, c);
    law_text_adds_no_markup(b.access_level, c);
    assert(count_char(nav_html(a), c) == count_char(nav_html(b), c));
}

proof fn lemma_node_ids_alike(a: SymbolTree, b: SymbolTree, id: Seq<char>)
    requires
        trees_alike(a, b),
    ensures
        node_ids(a, id) == node_ids(b, id),
    decreases a, 1nat,
{
    lemma_list_ids_alike(a.members, b.members, id + "-m"@);
}

proof fn lemma_list_ids_alike(a: Seq<SymbolTree>, b: Seq<SymbolTree>, prefix: Seq<char>)
    requires
        forests_alike(a, b),
    ensures
        list_ids(a, prefix) == list_ids(b, prefix),
    decreases a, 0nat,
{
    if a.len() > 0 {
        lemma_list_ids_alike(a.drop_last(), b.drop_last(), prefix);
        assert(decreases_to!(a => a[a.len() - 1]));
        lemma_node_ids_alike(
            a.last(),
            b.last(),
            prefix + decimal_digits((a.len() - 1) as nat),
        );
    }
}

proof fn lemma_groups_ids_alike(a: Seq<ExtensionTree>, b: Seq<ExtensionTree>, prefix: Seq<char>)
    requires
        groups_alike(a, b),
    ensures
        groups_ids(a, prefix) == groups_ids(b, prefix),
    decreases a.len(),
{
    if a.len() > 0 {
        let id = prefix + decimal_digits((a.len() - 1) as nat);
        lemma_groups_ids_alike(a.drop_last(), b.drop_last(), prefix);
        lemma_list_ids_alike(a.last().symbols, b.last().symbols, id + "-s"@);
    }
}

/// The ids of a page depend on where things stand in a package, not on their
/// names or texts.
pub proof fn law_ids_by_shape(a: Seq<ModuleTree>, b: Seq<ModuleTree>)
    requires
        modules_alike(a, b),
    ensures
        page_ids(a) == page_ids(b),
    decreases a.len(),
{
    if a.len() > 0 {
        let id = module_id((a.len() - 1) as nat);
        law_ids_by_shape(a.drop_last(), b.drop_last());
        lemma_list_ids_alike(a.last().symbols, b.last().symbols, id + "-s"@);
        lemma_groups_ids_alike(a.last().extensions, b.last().extensions, id + "-e"@);
    }
}

} // verus!
