//! What stands in an HTML page, in terms of the package.

use vstd::prelude::*;

use crate::document_laws::found_at;
use crate::html::{
    code_html, escaped, escaped_char, extensions_html, extensions_nav, group_open_html, link_html,
    lowercase, module_id, modules_html, modules_nav, nav_html, navs_html, nodes_html, page_html,
    search_name,
};
use crate::html_assets::{CSS, JS};
use crate::html_laws::{lemma_occurs_add, lemma_occurs_around};
use crate::model::{ExtensionTree, ModuleTree, PackageTree, SymbolTree};
use crate::symbol_name::short_name;
use crate::text::{decimal_digits, occurs_at, occurs_in, trimmed_end, white_space};
use crate::text_laws::spaces;

verus! {

/// Texts are escaped character by character: the five that have a meaning of
/// their own in HTML are written as entities, all others as they are.
pub proof fn law_escaped_text(a: Seq<char>, b: Seq<char>, c: char)
    ensures
        escaped(a + b) == escaped(a) + escaped(b),
        escaped(Seq::<char>::empty()) == Seq::<char>::empty(),
        escaped(seq!['&']) == "&amp;"@,
        escaped(seq!['<']) == "&lt;"@,
        escaped(seq!['>']) == "&gt;"@,
        escaped(seq!['"']) == "&quot;"@,
        escaped(seq!['\'']) == "&#39;"@,
        c != '&' && c != '<' && c != '>' && c != '"' && c != '\'' ==> escaped(seq![c]) == seq![c],
    decreases b.len(),
{
    let none = Seq::<char>::empty();
    lemma_escaped_one(c);
    lemma_escaped_one('&');
    lemma_escaped_one('<');
    lemma_escaped_one('>');
    lemma_escaped_one('"');
    lemma_escaped_one('\'');
    if b.len() == 0 {
        assert(a + b =~= a);
        assert(escaped(b) =~= none);
        assert(escaped(a) + none =~= escaped(a));
    } else {
        let s = a + b;
        assert(s.drop_last() =~= a + b.drop_last());
        assert(s.last() == b.last());
        law_escaped_text(a, b.drop_last(), c);
        assert(escaped(s) =~= escaped(a) + escaped(b));
    }
}

proof fn lemma_escaped_one(c: char)
    ensures
        escaped(seq![c]) == escaped_char(c),
{
    assert(seq![c].drop_last() =~= Seq::<char>::empty());
    assert(escaped(seq![c].drop_last()) =~= Seq::<char>::empty());
    assert(escaped(seq![c]) =~= escaped_char(c));
}

/// A text without characters that have a meaning of their own is escaped to
/// itself.
pub proof fn law_escaped_plain(s: Seq<char>)
    requires
        forall|i: int|
            0 <= i < s.len() ==> #[trigger] s[i] != '&' && s[i] != '<' && s[i] != '>' && s[i] != '"'
                && s[i] != '\'',
    ensures
        escaped(s) == s,
    decreases s.len(),
{
    if s.len() > 0 {
        let p = s.drop_last();
        assert forall|i: int| 0 <= i < p.len() implies #[trigger] p[i] != '&' && p[i] != '<' && p[i]
            != '>' && p[i] != '"' && p[i] != '\'' by {
            assert(p[i] == s[i]);
        }
        law_escaped_plain(p);
        assert(s[s.len() - 1] == s.last());
        assert(escaped(s) =~= s);
    }
}

/// The element of a declaration without members: its id, its short name in
/// lower case, and its text.
pub open spec fn leaf_element_of(id: Seq<char>, decl: Seq<char>, code: Seq<char>) -> Seq<char> {
    "<div class=\"sym leaf\" id=\""@ + escaped(id) + "\" data-name=\""@ + escaped(
        lowercase(short_name(decl)),
    ) + "\"><pre><code>"@ + escaped(code) + "</code></pre></div>\n"@
}

/// The start of the element of a declaration with members.
pub open spec fn group_element_of(id: Seq<char>, decl: Seq<char>, code: Seq<char>) -> Seq<char> {
    "<details class=\"sym\" id=\""@ + escaped(id) + "\" data-name=\""@ + escaped(
        lowercase(short_name(decl)),
    ) + "\" open><summary><pre><code>"@ + escaped(code)
        + "</code></pre></summary><div class=\"children\">\n"@
}

/// The link to a declaration in the navigation.
pub open spec fn link_of(id: Seq<char>, text: Seq<char>) -> Seq<char> {
    "<li><a href=\"#"@ + escaped(id) + "\">"@ + escaped(text) + "</a>"@
}

/// Whether a text is `code` with nothing but white space behind it.
pub open spec fn is_code(decl: Seq<char>, code: Seq<char>) -> bool {
    &&& code.len() > 0 ==> !white_space(code.last())
    &&& code.is_prefix_of(decl)
    &&& spaces(decl.skip(code.len() as int))
}

proof fn lemma_code(decl: Seq<char>, code: Seq<char>)
    requires
        is_code(decl, code),
    ensures
        code_html(decl) == escaped(code),
{
    let b = decl.skip(code.len() as int);
    assert(decl =~= code + b);
    lemma_end_off(code, b);
}

proof fn lemma_end_off(t: Seq<char>, b: Seq<char>)
    requires
        spaces(b),
        t.len() > 0 ==> !white_space(t.last()),
    ensures
        trimmed_end(t + b) == t,
    decreases b.len(),
{
    if b.len() == 0 {
        assert(t + b =~= t);
    } else {
        assert(white_space(b[b.len() - 1]));
        assert((t + b).last() == b.last());
        assert((t + b).drop_last() =~= t + b.drop_last());
        lemma_end_off(t, b.drop_last());
    }
}

/// A declaration without members is an element with its text, without white
/// space at the end, and a link with its short name. With members, it is an
/// element and a link around those of the members, which are numbered; another
/// member comes behind the others.
pub proof fn law_element(t: SymbolTree, x: SymbolTree, id: Seq<char>, code: Seq<char>)
    requires
        is_code(t.decl, code),
    ensures
        t.members.len() == 0 ==> t.html(id) == leaf_element_of(id, t.decl, code),
        t.members.len() == 0 ==> t.nav(id) == link_of(id, short_name(t.decl)) + "</li>\n"@,
        (SymbolTree { members: seq![x], ..t }).html(id) == group_element_of(id, t.decl, code)
            + x.html(id + "-m0"@) + "</div></details>\n"@,
        (SymbolTree { members: seq![x], ..t }).nav(id) == link_of(id, short_name(t.decl))
            + "<ul>\n"@ + x.nav(id + "-m0"@) + "</ul></li>\n"@,
        t.members.len() > 0 ==> exists|front: Seq<char>|
            t.html(id) == #[trigger] (front + "</div></details>\n"@) && (SymbolTree {
                members: t.members.push(x),
                ..t
            }).html(id) == front + x.html(id + "-m"@ + decimal_digits(t.members.len()))
                + "</div></details>\n"@,
        t.members.len() > 0 ==> exists|front: Seq<char>|
            t.nav(id) == #[trigger] (front + "</ul></li>\n"@) && (SymbolTree {
                members: t.members.push(x),
                ..t
            }).nav(id) == front + x.nav(id + "-m"@ + decimal_digits(t.members.len()))
                + "</ul></li>\n"@,
{
    lemma_code(t.decl, code);
    reveal_strlit("-m0");
    reveal_strlit("-m");
    assert(decimal_digits(0) =~= seq!['0']);
    assert("-m"@ + decimal_digits(0) =~= "-m0"@);
    assert(id + "-m"@ + decimal_digits(0) =~= id + "-m0"@);
    let none = Seq::<char>::empty();
    let one = SymbolTree { members: seq![x], ..t };
    let p = id + "-m"@;
    assert(seq![x].drop_last() =~= Seq::<SymbolTree>::empty());
    assert(nodes_html(seq![x].drop_last(), p) =~= none);
    assert(navs_html(seq![x].drop_last(), p) =~= none);
    assert(nodes_html(seq![x], p) =~= x.html(p + decimal_digits(0)));
    assert(navs_html(seq![x], p) =~= x.nav(p + decimal_digits(0)));
    assert(one.html(id) == group_open_html(id, search_name(t.decl), t.decl) + nodes_html(seq![x], p)
        + "</div></details>\n"@);
    assert(one.nav(id) == link_html(id, short_name(t.decl)) + "<ul>\n"@ + navs_html(seq![x], p)
        + "</ul></li>\n"@);
    if t.members.len() > 0 {
        let more = SymbolTree { members: t.members.push(x), ..t };
        let q = p + decimal_digits(t.members.len());
        assert(more.members.drop_last() =~= t.members);
        assert(nodes_html(more.members, p) == nodes_html(t.members, p) + x.html(q));
        assert(navs_html(more.members, p) == navs_html(t.members, p) + x.nav(q));
        let front = group_open_html(id, search_name(t.decl), t.decl) + nodes_html(t.members, p);
        assert(t.html(id) == front + "</div></details>\n"@);
        assert(more.html(id) =~= front + x.html(q) + "</div></details>\n"@);
        let nav = link_html(id, short_name(t.decl)) + "<ul>\n"@ + navs_html(t.members, p);
        assert(t.nav(id) == nav + "</ul></li>\n"@);
        assert(more.nav(id) =~= nav + x.nav(q) + "</ul></li>\n"@);
    }
}

/// The id of the element at a place: the number of the tree behind `prefix`, the
/// number of the member behind `-m`, and so on.
pub open spec fn place_id(prefix: Seq<char>, place: Seq<int>) -> Seq<char>
    decreases place.len(),
{
    if place.len() == 0 {
        seq![]
    } else if place.len() == 1 {
        prefix + decimal_digits(place[0] as nat)
    } else {
        place_id(prefix + decimal_digits(place[0] as nat) + "-m"@, place.skip(1))
    }
}

proof fn lemma_itself(p: Seq<char>)
    ensures
        occurs_in(p, p),
{
    assert(p.subrange(0, p.len() as int) =~= p);
    assert(occurs_at(p, p, 0));
}

/// The element of a declaration, as far as it is its own.
pub open spec fn own_element(t: SymbolTree, id: Seq<char>, code: Seq<char>) -> Seq<char> {
    if t.members.len() == 0 {
        leaf_element_of(id, t.decl, code)
    } else {
        group_element_of(id, t.decl, code)
    }
}

proof fn lemma_own(t: SymbolTree, id: Seq<char>, code: Seq<char>)
    requires
        is_code(t.decl, code),
    ensures
        occurs_in(t.html(id), own_element(t, id, code)),
        occurs_in(t.nav(id), link_of(id, short_name(t.decl))),
{
    let p = own_element(t, id, code);
    let q = link_of(id, short_name(t.decl));
    lemma_code(t.decl, code);
    lemma_itself(p);
    lemma_itself(q);
    let inner = id + "-m"@;
    if t.members.len() == 0 {
        lemma_occurs_add(q, "</li>\n"@, q);
    } else {
        lemma_occurs_add(p, nodes_html(t.members, inner), p);
        lemma_occurs_add(p + nodes_html(t.members, inner), "</div></details>\n"@, p);
        lemma_occurs_add(q, "<ul>\n"@, q);
        lemma_occurs_add(q + "<ul>\n"@, navs_html(t.members, inner), q);
        lemma_occurs_add(q + "<ul>\n"@ + navs_html(t.members, inner), "</ul></li>\n"@, q);
    }
}

proof fn lemma_in_nodes(f: Seq<SymbolTree>, i: int, prefix: Seq<char>, p: Seq<char>, q: Seq<char>)
    requires
        0 <= i < f.len(),
        occurs_in(f[i].html(prefix + decimal_digits(i as nat)), p),
        occurs_in(f[i].nav(prefix + decimal_digits(i as nat)), q),
    ensures
        occurs_in(nodes_html(f, prefix), p),
        occurs_in(navs_html(f, prefix), q),
    decreases f.len(),
{
    let h = f.drop_last();
    let id = prefix + decimal_digits((f.len() - 1) as nat);
    lemma_occurs_add(nodes_html(h, prefix), f.last().html(id), p);
    lemma_occurs_add(navs_html(h, prefix), f.last().nav(id), q);
    if i < h.len() {
        assert(h[i] == f[i]);
        lemma_in_nodes(h, i, prefix, p, q);
    }
}

proof fn lemma_in_members(t: SymbolTree, id: Seq<char>, p: Seq<char>, q: Seq<char>)
    requires
        t.members.len() > 0,
        occurs_in(nodes_html(t.members, id + "-m"@), p),
        occurs_in(navs_html(t.members, id + "-m"@), q),
    ensures
        occurs_in(t.html(id), p),
        occurs_in(t.nav(id), q),
{
    lemma_occurs_around(
        group_open_html(id, search_name(t.decl), t.decl),
        nodes_html(t.members, id + "-m"@),
        "</div></details>\n"@,
        p,
    );
    lemma_occurs_around(
        link_html(id, short_name(t.decl)) + "<ul>\n"@,
        navs_html(t.members, id + "-m"@),
        "</ul></li>\n"@,
        q,
    );
}

proof fn lemma_found(
    f: Seq<SymbolTree>,
    place: Seq<int>,
    t: SymbolTree,
    prefix: Seq<char>,
    code: Seq<char>,
)
    requires
        found_at(f, place, t),
        is_code(t.decl, code),
    ensures
        occurs_in(nodes_html(f, prefix), own_element(t, place_id(prefix, place), code)),
        occurs_in(navs_html(f, prefix), link_of(place_id(prefix, place), short_name(t.decl))),
    decreases place.len(),
{
    let i = place[0];
    let id = prefix + decimal_digits(i as nat);
    let p = own_element(t, place_id(prefix, place), code);
    let q = link_of(place_id(prefix, place), short_name(t.decl));
    if place.len() == 1 {
        lemma_own(t, id, code);
    } else {
        lemma_found(f[i].members, place.skip(1), t, id + "-m"@, code);
        lemma_in_members(f[i], id, p, q);
    }
    lemma_in_nodes(f, i, prefix, p, q);
}

proof fn lemma_in_sections(f: Seq<ModuleTree>, m: int, p: Seq<char>, q: Seq<char>)
    requires
        0 <= m < f.len(),
        occurs_in(f[m].html(module_id(m as nat)), p),
        occurs_in(f[m].nav(module_id(m as nat)), q),
    ensures
        occurs_in(modules_html(f), p),
        occurs_in(modules_nav(f), q),
    decreases f.len(),
{
    let h = f.drop_last();
    let id = module_id((f.len() - 1) as nat);
    lemma_occurs_add(modules_html(h), f.last().html(id), p);
    lemma_occurs_add(modules_nav(h), f.last().nav(id), q);
    if m < h.len() {
        assert(h[m] == f[m]);
        lemma_in_sections(h, m, p, q);
    }
}

spec fn before_title() -> Seq<char> {
    "<!DOCTYPE html>\n<html lang=\"en\">\n<head>\n<meta charset=\"utf-8\">\n<title>"@
}

spec fn before_nav() -> Seq<char> {
    "</code></p>\n  <input type=\"search\" id=\"filter\" placeholder=\"Filter symbols…\" autocomplete=\"off\" autofocus>\n</header>\n<div class=\"layout\">\n  <nav id=\"nav\">"@
}

spec fn page_front(p: PackageTree) -> Seq<char> {
    before_title() + escaped(p.package + " – Public API"@) + "</title>\n<style>"@ + CSS@
        + "</style>\n</head>\n<body>\n<header>\n  <h1>"@ + escaped(p.package)
        + "</h1>\n  <p class=\"meta\">Access level: <code>"@ + escaped(p.access_level)
        + before_nav()
}

proof fn lemma_page(p: PackageTree, q: Seq<char>)
    ensures
        occurs_in(modules_html(p.modules), q) || occurs_in(modules_nav(p.modules), q) || occurs_in(
            page_front(p),
            q,
        ) ==> occurs_in(page_html(p), q),
{
    let a = page_front(p);
    let nav = nav_html(p);
    let body = modules_html(p.modules);
    lemma_occurs_add("<ul class=\"nav-root\">\n"@, modules_nav(p.modules), q);
    lemma_occurs_add("<ul class=\"nav-root\">\n"@ + modules_nav(p.modules), "</ul>\n"@, q);
    lemma_occurs_add(a, nav, q);
    lemma_occurs_add(a + nav, "</nav>\n  <main>"@, q);
    lemma_occurs_add(a + nav + "</nav>\n  <main>"@, body, q);
    let b = a + nav + "</nav>\n  <main>"@ + body;
    lemma_occurs_add(b, "</main>\n</div>\n<script>"@, q);
    lemma_occurs_add(b + "</main>\n</div>\n<script>"@, JS@, q);
    lemma_occurs_add(
        b + "</main>\n</div>\n<script>"@ + JS@,
        "</script>\n</body>\n</html>\n"@,
        q,
    );
    assert(page_html(p) == b + "</main>\n</div>\n<script>"@ + JS@
        + "</script>\n</body>\n</html>\n"@);
}

/// A page shows each declaration of a module, however deeply nested: an element
/// with its text, and a link to it with its short name.
pub proof fn law_declaration_on_page(
    p: PackageTree,
    m: int,
    place: Seq<int>,
    t: SymbolTree,
    code: Seq<char>,
)
    requires
        0 <= m < p.modules.len(),
        found_at(p.modules[m].symbols, place, t),
        is_code(t.decl, code),
    ensures
        ({
            let id = place_id("mod-"@ + decimal_digits(m as nat) + "-s"@, place);
            &&& occurs_in(page_html(p), own_element(t, id, code))
            &&& occurs_in(page_html(p), link_of(id, short_name(t.decl)))
        }),
{
    let base = module_id(m as nat);
    let x = p.modules[m];
    let id = place_id(base + "-s"@, place);
    let a = own_element(t, id, code);
    let b = link_of(id, short_name(t.decl));
    lemma_found(x.symbols, place, t, base + "-s"@, code);
    let nodes = nodes_html(x.symbols, base + "-s"@);
    let navs = navs_html(x.symbols, base + "-s"@);
    lemma_occurs_around("<div class=\"symbols\">\n"@, nodes, "</div>\n"@, a);
    lemma_occurs_around("<ul>\n"@, navs, "</ul>\n"@, b);
    lemma_module_parts_in(x, base, a);
    lemma_module_parts_in(x, base, b);
    lemma_in_sections(p.modules, m, a, b);
    lemma_page(p, a);
    lemma_page(p, b);
}

proof fn lemma_module_parts_in(m: ModuleTree, id: Seq<char>, q: Seq<char>)
    ensures
        m.symbols.len() > 0 && occurs_in(
            "<div class=\"symbols\">\n"@ + nodes_html(m.symbols, id + "-s"@) + "</div>\n"@,
            q,
        ) ==> occurs_in(m.html(id), q),
        occurs_in(extensions_html(m.extensions, id + "-e"@), q) ==> occurs_in(m.html(id), q),
        m.symbols.len() > 0 && occurs_in(
            "<ul>\n"@ + navs_html(m.symbols, id + "-s"@) + "</ul>\n"@,
            q,
        ) ==> occurs_in(m.nav(id), q),
        occurs_in(extensions_nav(m.extensions, id + "-e"@), q) ==> occurs_in(m.nav(id), q),
        occurs_in("<section class=\"module\" id=\""@ + escaped(id) + "\"><h2>"@ + escaped(m.name)
            + "</h2>\n"@, q) ==> occurs_in(m.html(id), q),
        occurs_in(link_html(id, m.name), q) ==> occurs_in(m.nav(id), q),
{
    let head = "<section class=\"module\" id=\""@ + escaped(id) + "\"><h2>"@ + escaped(m.name)
        + "</h2>\n"@;
    let list = if m.symbols.len() > 0 {
        "<div class=\"symbols\">\n"@ + nodes_html(m.symbols, id + "-s"@) + "</div>\n"@
    } else {
        seq![]
    };
    let exts = extensions_html(m.extensions, id + "-e"@);
    lemma_occurs_add(head, list, q);
    lemma_occurs_add(head + list, exts, q);
    lemma_occurs_add(head + list + exts, "</section>\n"@, q);
    let link = link_html(id, m.name);
    let navs = if m.symbols.len() > 0 {
        "<ul>\n"@ + navs_html(m.symbols, id + "-s"@) + "</ul>\n"@
    } else {
        seq![]
    };
    let more = extensions_nav(m.extensions, id + "-e"@);
    lemma_occurs_add(link, "\n"@, q);
    lemma_occurs_add(link + "\n"@, navs, q);
    lemma_occurs_add(link + "\n"@ + navs, more, q);
    lemma_occurs_add(link + "\n"@ + navs + more, "</li>\n"@, q);
}

proof fn lemma_in_groups(
    f: Seq<ExtensionTree>,
    e: int,
    prefix: Seq<char>,
    p: Seq<char>,
    q: Seq<char>,
)
    requires
        0 <= e < f.len(),
        occurs_in(f[e].html(prefix + decimal_digits(e as nat)), p),
        occurs_in(f[e].nav(prefix + decimal_digits(e as nat)), q),
    ensures
        occurs_in(extensions_html(f, prefix), p),
        occurs_in(extensions_nav(f, prefix), q),
    decreases f.len(),
{
    let h = f.drop_last();
    let id = prefix + decimal_digits((f.len() - 1) as nat);
    lemma_occurs_add(extensions_html(h, prefix), f.last().html(id), p);
    lemma_occurs_add(extensions_nav(h, prefix), f.last().nav(id), q);
    if e < h.len() {
        assert(h[e] == f[e]);
        lemma_in_groups(h, e, prefix, p, q);
    }
}

/// The same holds of the declarations of an extension group. The group itself
/// has a section and a link with the name of the module that is extended.
pub proof fn law_extension_on_page(
    p: PackageTree,
    m: int,
    e: int,
    place: Seq<int>,
    t: SymbolTree,
    code: Seq<char>,
)
    requires
        0 <= m < p.modules.len(),
        0 <= e < p.modules[m].extensions.len(),
        found_at(p.modules[m].extensions[e].symbols, place, t),
        is_code(t.decl, code),
    ensures
        ({
            let group = "mod-"@ + decimal_digits(m as nat) + "-e"@ + decimal_digits(e as nat);
            let id = place_id(group + "-s"@, place);
            let name = p.modules[m].extensions[e].extended_module;
            &&& occurs_in(page_html(p), own_element(t, id, code))
            &&& occurs_in(page_html(p), link_of(id, short_name(t.decl)))
            &&& occurs_in(
                page_html(p),
                "<section class=\"ext\" id=\""@ + escaped(group)
                    + "\"><h3>Extensions to <code>"@ + escaped(name) + "</code></h3>\n"@,
            )
            &&& occurs_in(
                page_html(p),
                "<li><a href=\"#"@ + escaped(group) + "\">ext: "@ + escaped(name) + "</a>"@,
            )
        }),
{
    let base = module_id(m as nat);
    let x = p.modules[m];
    let g = x.extensions[e];
    let group = base + "-e"@ + decimal_digits(e as nat);
    let id = place_id(group + "-s"@, place);
    let a = own_element(t, id, code);
    let b = link_of(id, short_name(t.decl));
    lemma_found(g.symbols, place, t, group + "-s"@, code);
    let nodes = nodes_html(g.symbols, group + "-s"@);
    let navs = navs_html(g.symbols, group + "-s"@);
    let c = "<section class=\"ext\" id=\""@ + escaped(group) + "\"><h3>Extensions to <code>"@
        + escaped(g.extended_module) + "</code></h3>\n"@;
    let d = "<li><a href=\"#"@ + escaped(group) + "\">ext: "@ + escaped(g.extended_module)
        + "</a>"@;
    reveal_strlit("</code></h3>\n<div class=\"symbols\">\n");
    reveal_strlit("</code></h3>\n");
    reveal_strlit("<div class=\"symbols\">\n");
    reveal_strlit("</a>\n<ul>\n");
    reveal_strlit("</a>");
    reveal_strlit("\n<ul>\n");
    assert("</code></h3>\n<div class=\"symbols\">\n"@ =~= "</code></h3>\n"@
        + "<div class=\"symbols\">\n"@);
    assert("</a>\n<ul>\n"@ =~= "</a>"@ + "\n<ul>\n"@);
    let front = c + "<div class=\"symbols\">\n"@;
    let start = d + "\n<ul>\n"@;
    assert(g.html(group) =~= front + nodes + "</div></section>\n"@);
    assert(g.nav(group) =~= start + navs + "</ul></li>\n"@);
    lemma_itself(c);
    lemma_itself(d);
    lemma_occurs_add(c, "<div class=\"symbols\">\n"@, c);
    lemma_occurs_add(front, nodes, c);
    lemma_occurs_add(front + nodes, "</div></section>\n"@, c);
    lemma_occurs_add(d, "\n<ul>\n"@, d);
    lemma_occurs_add(start, navs, d);
    lemma_occurs_add(start + navs, "</ul></li>\n"@, d);
    lemma_occurs_around(front, nodes, "</div></section>\n"@, a);
    lemma_occurs_around(start, navs, "</ul></li>\n"@, b);
    lemma_in_groups(x.extensions, e, base + "-e"@, a, b);
    lemma_in_groups(x.extensions, e, base + "-e"@, c, d);
    lemma_module_parts_in(x, base, a);
    lemma_module_parts_in(x, base, b);
    lemma_module_parts_in(x, base, c);
    lemma_module_parts_in(x, base, d);
    lemma_in_sections(p.modules, m, a, b);
    lemma_in_sections(p.modules, m, c, d);
    lemma_page(p, a);
    lemma_page(p, b);
    lemma_page(p, c);
    lemma_page(p, d);
}

/// A page shows the name of the package, in its title and as its heading, the
/// access level, and the name of each module, as a heading and as a link.
pub proof fn law_names_on_page(p: PackageTree, m: int)
    requires
        0 <= m < p.modules.len(),
    ensures
        occurs_in(page_html(p), "<title>"@ + escaped(p.package + " – Public API"@) + "</title>"@),
        occurs_in(page_html(p), "<h1>"@ + escaped(p.package) + "</h1>"@),
        occurs_in(
            page_html(p),
            "Access level: <code>"@ + escaped(p.access_level) + "</code></p>"@,
        ),
        occurs_in(
            page_html(p),
            "<section class=\"module\" id=\""@ + escaped("mod-"@ + decimal_digits(m as nat))
                + "\"><h2>"@ + escaped(p.modules[m].name) + "</h2>\n"@,
        ),
        occurs_in(page_html(p), link_of("mod-"@ + decimal_digits(m as nat), p.modules[m].name)),
{
    let x = p.modules[m];
    let id = module_id(m as nat);
    let a = "<section class=\"module\" id=\""@ + escaped(id) + "\"><h2>"@ + escaped(x.name)
        + "</h2>\n"@;
    let b = link_of(id, x.name);
    lemma_itself(a);
    lemma_itself(b);
    lemma_module_parts_in(x, id, a);
    lemma_module_parts_in(x, id, b);
    lemma_in_sections(p.modules, m, a, b);
    lemma_page(p, a);
    lemma_page(p, b);
    lemma_title(p);
    lemma_heading(p);
    lemma_level(p);
}

/// What stands between two texts that end and start as said is in the whole.
proof fn lemma_between(
    a: Seq<char>,
    x: Seq<char>,
    v: Seq<char>,
    y: Seq<char>,
    b: Seq<char>,
)
    ensures
        occurs_in((a + x) + v + (y + b), x + v + y),
{
    let q = x + v + y;
    let s = (a + x) + v + (y + b);
    assert(s =~= a + q + b);
    lemma_itself(q);
    lemma_occurs_around(a, q, b, q);
}

proof fn lemma_title(p: PackageTree)
    ensures
        occurs_in(page_html(p), "<title>"@ + escaped(p.package + " – Public API"@) + "</title>"@),
{
    let v = escaped(p.package + " – Public API"@);
    let q = "<title>"@ + v + "</title>"@;
    let head = "<!DOCTYPE html>\n<html lang=\"en\">\n<head>\n<meta charset=\"utf-8\">\n"@;
    reveal_strlit("<!DOCTYPE html>\n<html lang=\"en\">\n<head>\n<meta charset=\"utf-8\">\n<title>");
    reveal_strlit("<!DOCTYPE html>\n<html lang=\"en\">\n<head>\n<meta charset=\"utf-8\">\n");
    reveal_strlit("<title>");
    reveal_strlit("</title>\n<style>");
    reveal_strlit("</title>");
    reveal_strlit("\n<style>");
    assert(before_title() =~= head + "<title>"@);
    assert("</title>\n<style>"@ =~= "</title>"@ + "\n<style>"@);
    lemma_between(head, "<title>"@, v, "</title>"@, "\n<style>"@);
    let front = before_title() + v + "</title>\n<style>"@;
    let rest = "</style>\n</head>\n<body>\n<header>\n  <h1>"@;
    let s = "</h1>\n  <p class=\"meta\">Access level: <code>"@;
    lemma_occurs_add(front, CSS@, q);
    lemma_occurs_add(front + CSS@, rest, q);
    lemma_occurs_add(front + CSS@ + rest, escaped(p.package), q);
    lemma_occurs_add(front + CSS@ + rest + escaped(p.package), s, q);
    lemma_occurs_add(
        front + CSS@ + rest + escaped(p.package) + s,
        escaped(p.access_level),
        q,
    );
    lemma_occurs_add(
        front + CSS@ + rest + escaped(p.package) + s + escaped(p.access_level),
        before_nav(),
        q,
    );
    lemma_page(p, q);
}

proof fn lemma_heading(p: PackageTree)
    ensures
        occurs_in(page_html(p), "<h1>"@ + escaped(p.package) + "</h1>"@),
{
    let v = escaped(p.package);
    let q = "<h1>"@ + v + "</h1>"@;
    let r = "</style>\n</head>\n<body>\n<header>\n  "@;
    let t = "\n  <p class=\"meta\">Access level: <code>"@;
    reveal_strlit("</style>\n</head>\n<body>\n<header>\n  <h1>");
    reveal_strlit("</style>\n</head>\n<body>\n<header>\n  ");
    reveal_strlit("<h1>");
    reveal_strlit("</h1>\n  <p class=\"meta\">Access level: <code>");
    reveal_strlit("</h1>");
    reveal_strlit("\n  <p class=\"meta\">Access level: <code>");
    assert("</style>\n</head>\n<body>\n<header>\n  <h1>"@ =~= r + "<h1>"@);
    assert("</h1>\n  <p class=\"meta\">Access level: <code>"@ =~= "</h1>"@ + t);
    let a = before_title() + escaped(p.package + " – Public API"@) + "</title>\n<style>"@ + CSS@;
    lemma_between(a + r, "<h1>"@, v, "</h1>"@, t);
    let whole = (a + r + "<h1>"@) + v + ("</h1>"@ + t);
    lemma_occurs_add(whole, escaped(p.access_level), q);
    lemma_occurs_add(whole + escaped(p.access_level), before_nav(), q);
    assert(page_front(p) =~= whole + escaped(p.access_level) + before_nav());
    lemma_page(p, q);
}

proof fn lemma_level(p: PackageTree)
    ensures
        occurs_in(
            page_html(p),
            "Access level: <code>"@ + escaped(p.access_level) + "</code></p>"@,
        ),
{
    let v = escaped(p.access_level);
    let x = "Access level: <code>"@;
    let y = "</code></p>"@;
    let r = "</h1>\n  <p class=\"meta\">"@;
    let t = "\n  <input type=\"search\" id=\"filter\" placeholder=\"Filter symbols…\" autocomplete=\"off\" autofocus>\n</header>\n<div class=\"layout\">\n  <nav id=\"nav\">"@;
    reveal_strlit("Access level: <code>");
    reveal_strlit("</code></p>");
    reveal_strlit("</h1>\n  <p class=\"meta\">");
    reveal_strlit("</h1>\n  <p class=\"meta\">Access level: <code>");
    reveal_strlit("\n  <input type=\"search\" id=\"filter\" placeholder=\"Filter symbols…\" autocomplete=\"off\" autofocus>\n</header>\n<div class=\"layout\">\n  <nav id=\"nav\">");
    reveal_strlit("</code></p>\n  <input type=\"search\" id=\"filter\" placeholder=\"Filter symbols…\" autocomplete=\"off\" autofocus>\n</header>\n<div class=\"layout\">\n  <nav id=\"nav\">");
    assert("</h1>\n  <p class=\"meta\">Access level: <code>"@ =~= r + x);
    assert(before_nav() =~= y + t);
    let a = before_title() + escaped(p.package + " – Public API"@) + "</title>\n<style>"@ + CSS@
        + "</style>\n</head>\n<body>\n<header>\n  <h1>"@ + escaped(p.package);
    lemma_between(a + r, x, v, y, t);
    assert(page_front(p) =~= (a + r + x) + v + (y + t));
    lemma_page(p, x + v + y);
}

/// Another module adds its link behind those of the others and its section
/// behind those of the others, and nothing else.
pub proof fn law_module_added_to_page(p: PackageTree, m: ModuleTree)
    ensures
        exists|a: Seq<char>, b: Seq<char>, c: Seq<char>|
            #![trigger a + b + c]
            {
                let id = "mod-"@ + decimal_digits(p.modules.len());
                &&& page_html(p) == a + b + c
                &&& page_html(PackageTree { modules: p.modules.push(m), ..p }) == a + m.nav(id) + b
                    + m.html(id) + c
                &&& "</ul>\n</nav>\n  <main>"@.is_prefix_of(b)
                &&& c == "</main>\n</div>\n<script>"@ + JS@ + "</script>\n</body>\n</html>\n"@
            },
{
    let more = PackageTree { modules: p.modules.push(m), ..p };
    let id = module_id(p.modules.len());
    assert(more.modules.drop_last() =~= p.modules);
    assert(modules_nav(more.modules) == modules_nav(p.modules) + m.nav(id));
    assert(modules_html(more.modules) == modules_html(p.modules) + m.html(id));
    assert("</ul>\n</nav>\n  <main>"@ =~= "</ul>\n"@ + "</nav>\n  <main>"@) by {
        reveal_strlit("</ul>\n</nav>\n  <main>");
        reveal_strlit("</ul>\n");
        reveal_strlit("</nav>\n  <main>");
    }
    let root = "<ul class=\"nav-root\">\n"@;
    let a = page_front(p) + root + modules_nav(p.modules);
    let b = "</ul>\n</nav>\n  <main>"@ + modules_html(p.modules);
    let c = "</main>\n</div>\n<script>"@ + JS@ + "</script>\n</body>\n</html>\n"@;
    let none = Seq::<char>::empty();
    lemma_regrouped(
        page_front(p),
        root,
        modules_nav(p.modules),
        none,
        "</ul>\n"@,
        "</nav>\n  <main>"@,
        modules_html(p.modules),
        none,
        "</main>\n</div>\n<script>"@,
        JS@,
        "</script>\n</body>\n</html>\n"@,
    );
    lemma_regrouped(
        page_front(p),
        root,
        modules_nav(p.modules),
        m.nav(id),
        "</ul>\n"@,
        "</nav>\n  <main>"@,
        modules_html(p.modules),
        m.html(id),
        "</main>\n</div>\n<script>"@,
        JS@,
        "</script>\n</body>\n</html>\n"@,
    );
    assert(modules_nav(p.modules) + none =~= modules_nav(p.modules));
    assert(modules_html(p.modules) + none =~= modules_html(p.modules));
    assert(a + none + b + none + c =~= a + b + c);
    assert(page_html(p) == a + b + c);
    assert(page_html(more) == a + m.nav(id) + b + m.html(id) + c);
    assert("</ul>\n</nav>\n  <main>"@ =~= b.subrange(0, "</ul>\n</nav>\n  <main>"@.len() as int));
}

proof fn lemma_regrouped(
    f: Seq<char>,
    r: Seq<char>,
    n: Seq<char>,
    x: Seq<char>,
    u: Seq<char>,
    v: Seq<char>,
    h: Seq<char>,
    y: Seq<char>,
    i: Seq<char>,
    j: Seq<char>,
    k: Seq<char>,
)
    ensures
        f + (r + (n + x) + u) + v + (h + y) + i + j + k == (f + r + n) + x + (u + v + h) + y + (i
            + j + k),
{
    assert(f + (r + (n + x) + u) + v + (h + y) + i + j + k =~= (f + r + n) + x + (u + v + h) + y
        + (i + j + k));
}

/// The section of a module is its heading and its declarations in a list, and
/// so is its entry in the navigation. Where there are no declarations, there is
/// no list.
pub proof fn law_module_section(m: ModuleTree, x: SymbolTree, id: Seq<char>)
    requires
        m.extensions.len() == 0,
    ensures
        ({
            let head = "<section class=\"module\" id=\""@ + escaped(id) + "\"><h2>"@ + escaped(
                m.name,
            ) + "</h2>\n"@;
            let link = link_of(id, m.name) + "\n"@;
            let bare = ModuleTree { symbols: seq![], ..m };
            let one = ModuleTree { symbols: seq![x], ..m };
            &&& bare.html(id) == head + "</section>\n"@
            &&& bare.nav(id) == link + "</li>\n"@
            &&& one.html(id) == head + "<div class=\"symbols\">\n"@ + x.html(id + "-s0"@)
                + "</div>\n"@ + "</section>\n"@
            &&& one.nav(id) == link + "<ul>\n"@ + x.nav(id + "-s0"@) + "</ul>\n"@ + "</li>\n"@
        }),
{
    let none = Seq::<char>::empty();
    let s = id + "-s"@;
    let t = id + "-e"@;
    reveal_strlit("-s0");
    reveal_strlit("-s");
    assert(decimal_digits(0) =~= seq!['0']);
    assert(s + decimal_digits(0) =~= id + "-s0"@);
    assert(seq![x].drop_last() =~= Seq::<SymbolTree>::empty());
    assert(nodes_html(seq![x].drop_last(), s) =~= none);
    assert(navs_html(seq![x].drop_last(), s) =~= none);
    assert(nodes_html(seq![x], s) =~= x.html(id + "-s0"@));
    assert(navs_html(seq![x], s) =~= x.nav(id + "-s0"@));
    assert(m.extensions =~= seq![]);
    assert(extensions_html(m.extensions, t) =~= none);
    assert(extensions_nav(m.extensions, t) =~= none);
    let head = "<section class=\"module\" id=\""@ + escaped(id) + "\"><h2>"@ + escaped(m.name)
        + "</h2>\n"@;
    let link = link_of(id, m.name) + "\n"@;
    let bare = ModuleTree { symbols: seq![], ..m };
    let one = ModuleTree { symbols: seq![x], ..m };
    assert(bare.html(id) =~= head + "</section>\n"@);
    assert(bare.nav(id) =~= link + "</li>\n"@);
    assert(one.html(id) =~= head + "<div class=\"symbols\">\n"@ + x.html(id + "-s0"@)
        + "</div>\n"@ + "</section>\n"@);
    assert(one.nav(id) =~= link + "<ul>\n"@ + x.nav(id + "-s0"@) + "</ul>\n"@ + "</li>\n"@);
}

/// Declarations are numbered, and another one comes behind the others.
pub proof fn law_declaration_added_to_section(m: ModuleTree, x: SymbolTree, id: Seq<char>)
    requires
        m.symbols.len() > 0,
        m.extensions.len() == 0,
    ensures
        ({
            let more = ModuleTree { symbols: m.symbols.push(x), ..m };
            let next = id + "-s"@ + decimal_digits(m.symbols.len());
            &&& exists|a: Seq<char>|
                m.html(id) == #[trigger] (a + "</div>\n"@ + "</section>\n"@) && more.html(id) == a
                    + x.html(next) + "</div>\n"@ + "</section>\n"@
            &&& exists|b: Seq<char>|
                m.nav(id) == #[trigger] (b + "</ul>\n"@ + "</li>\n"@) && more.nav(id) == b + x.nav(
                    next,
                ) + "</ul>\n"@ + "</li>\n"@
        }),
{
    let none = Seq::<char>::empty();
    let s = id + "-s"@;
    let t = id + "-e"@;
    let head = "<section class=\"module\" id=\""@ + escaped(id) + "\"><h2>"@ + escaped(m.name)
        + "</h2>\n"@;
    let link = link_of(id, m.name) + "\n"@;
    assert(m.extensions =~= seq![]);
    assert(extensions_html(m.extensions, t) =~= none);
    assert(extensions_nav(m.extensions, t) =~= none);
    let more = ModuleTree { symbols: m.symbols.push(x), ..m };
    let k = s + decimal_digits(m.symbols.len());
    assert(more.symbols.drop_last() =~= m.symbols);
    assert(nodes_html(more.symbols, s) == nodes_html(m.symbols, s) + x.html(k));
    assert(navs_html(more.symbols, s) == navs_html(m.symbols, s) + x.nav(k));
    let a = head + "<div class=\"symbols\">\n"@ + nodes_html(m.symbols, s);
    let b = link + "<ul>\n"@ + navs_html(m.symbols, s);
    assert(m.html(id) =~= a + "</div>\n"@ + "</section>\n"@);
    assert(m.nav(id) =~= b + "</ul>\n"@ + "</li>\n"@);
    assert(more.html(id) =~= a + x.html(k) + "</div>\n"@ + "</section>\n"@);
    assert(more.nav(id) =~= b + x.nav(k) + "</ul>\n"@ + "</li>\n"@);
}

/// Extension groups are numbered too. Another one comes behind the declarations
/// and behind the others.
pub proof fn law_group_added_to_section(m: ModuleTree, e: ExtensionTree, id: Seq<char>)
    ensures
        ({
            let more = ModuleTree { extensions: m.extensions.push(e), ..m };
            let next = id + "-e"@ + decimal_digits(m.extensions.len());
            &&& exists|a: Seq<char>|
                m.html(id) == #[trigger] (a + "</section>\n"@) && more.html(id) == a + e.html(next)
                    + "</section>\n"@
            &&& exists|b: Seq<char>|
                m.nav(id) == #[trigger] (b + "</li>\n"@) && more.nav(id) == b + e.nav(next)
                    + "</li>\n"@
        }),
{
    let s = id + "-s"@;
    let t = id + "-e"@;
    let more = ModuleTree { extensions: m.extensions.push(e), ..m };
    let k = t + decimal_digits(m.extensions.len());
    assert(more.extensions.drop_last() =~= m.extensions);
    assert(extensions_html(more.extensions, t) == extensions_html(m.extensions, t) + e.html(k));
    assert(extensions_nav(more.extensions, t) == extensions_nav(m.extensions, t) + e.nav(k));
    let head = "<section class=\"module\" id=\""@ + escaped(id) + "\"><h2>"@ + escaped(m.name)
        + "</h2>\n"@ + (if m.symbols.len() > 0 {
        "<div class=\"symbols\">\n"@ + nodes_html(m.symbols, s) + "</div>\n"@
    } else {
        seq![]
    });
    let link = link_of(id, m.name) + "\n"@ + (if m.symbols.len() > 0 {
        "<ul>\n"@ + navs_html(m.symbols, s) + "</ul>\n"@
    } else {
        seq![]
    });
    let a = head + extensions_html(m.extensions, t);
    let b = link + extensions_nav(m.extensions, t);
    assert(m.html(id) == a + "</section>\n"@);
    assert(m.nav(id) == b + "</li>\n"@);
    assert(more.html(id) == head + (extensions_html(m.extensions, t) + e.html(k)) + "</section>\n"@);
    assert(more.nav(id) == link + (extensions_nav(m.extensions, t) + e.nav(k)) + "</li>\n"@);
    assert(more.html(id) =~= a + e.html(k) + "</section>\n"@);
    assert(more.nav(id) =~= b + e.nav(k) + "</li>\n"@);
}

/// So it is with the section of an extension group.
pub proof fn law_group_section(e: ExtensionTree, x: SymbolTree, id: Seq<char>)
    ensures
        ({
            let bare = ExtensionTree { symbols: seq![], ..e };
            &&& bare.html(id) == "<section class=\"ext\" id=\""@ + escaped(id)
                + "\"><h3>Extensions to <code>"@ + escaped(e.extended_module)
                + "</code></h3>\n<div class=\"symbols\">\n"@ + "</div></section>\n"@
            &&& bare.nav(id) == "<li><a href=\"#"@ + escaped(id) + "\">ext: "@ + escaped(
                e.extended_module,
            ) + "</a>\n<ul>\n"@ + "</ul></li>\n"@
        }),
        exists|a: Seq<char>, b: Seq<char>|
            e.html(id) == #[trigger] (a + "</div></section>\n"@) && e.nav(id) == #[trigger] (b
                + "</ul></li>\n"@) && (ExtensionTree { symbols: e.symbols.push(x), ..e }).html(id)
                == a + x.html(id + "-s"@ + decimal_digits(e.symbols.len()))
                + "</div></section>\n"@ && (ExtensionTree {
                symbols: e.symbols.push(x),
                ..e
            }).nav(id) == b + x.nav(id + "-s"@ + decimal_digits(e.symbols.len()))
                + "</ul></li>\n"@,
{
    let none = Seq::<char>::empty();
    let s = id + "-s"@;
    let head = "<section class=\"ext\" id=\""@ + escaped(id) + "\"><h3>Extensions to <code>"@
        + escaped(e.extended_module) + "</code></h3>\n<div class=\"symbols\">\n"@;
    let link = "<li><a href=\"#"@ + escaped(id) + "\">ext: "@ + escaped(e.extended_module)
        + "</a>\n<ul>\n"@;
    let bare = ExtensionTree { symbols: seq![], ..e };
    assert(nodes_html(seq![], s) =~= none);
    assert(navs_html(seq![], s) =~= none);
    assert(bare.html(id) =~= head + "</div></section>\n"@);
    assert(bare.nav(id) =~= link + "</ul></li>\n"@);
    let more = ExtensionTree { symbols: e.symbols.push(x), ..e };
    let k = s + decimal_digits(e.symbols.len());
    assert(more.symbols.drop_last() =~= e.symbols);
    assert(nodes_html(more.symbols, s) == nodes_html(e.symbols, s) + x.html(k));
    assert(navs_html(more.symbols, s) == navs_html(e.symbols, s) + x.nav(k));
    let a = head + nodes_html(e.symbols, s);
    let b = link + navs_html(e.symbols, s);
    assert(e.html(id) == a + "</div></section>\n"@);
    assert(e.nav(id) == b + "</ul></li>\n"@);
    assert(more.html(id) =~= a + x.html(k) + "</div></section>\n"@);
    assert(more.nav(id) =~= b + x.nav(k) + "</ul></li>\n"@);
}

/// What stands on the page of a package without modules.
pub proof fn law_page_without_modules(p: PackageTree)
    requires
        p.modules.len() == 0,
    ensures
        ({
            let head =
                "<!DOCTYPE html>\n<html lang=\"en\">\n<head>\n<meta charset=\"utf-8\">\n<title>"@
                + escaped(p.package + " – Public API"@) + "</title>\n<style>"@ + CSS@
                + "</style>\n</head>\n<body>\n"@;
            let header = "<header>\n  <h1>"@ + escaped(p.package)
                + "</h1>\n  <p class=\"meta\">Access level: <code>"@ + escaped(p.access_level)
                + "</code></p>\n  <input type=\"search\" id=\"filter\" placeholder=\"Filter symbols…\" autocomplete=\"off\" autofocus>\n</header>\n"@;
            let layout =
                "<div class=\"layout\">\n  <nav id=\"nav\"><ul class=\"nav-root\">\n</ul>\n</nav>\n  <main></main>\n</div>\n"@;
            page_html(p) == head + header + layout + "<script>"@ + JS@
                + "</script>\n</body>\n</html>\n"@
        }),
{
    assert(modules_nav(p.modules) =~= Seq::<char>::empty());
    assert(modules_html(p.modules) =~= Seq::<char>::empty());
    let title = escaped(p.package + " – Public API"@);
    let name = escaped(p.package);
    let level = escaped(p.access_level);
    let a = "<!DOCTYPE html>\n<html lang=\"en\">\n<head>\n<meta charset=\"utf-8\">\n<title>"@;
    let b = "</title>\n<style>"@;
    let c = "</style>\n</head>\n<body>\n<header>\n  <h1>"@;
    let c1 = "</style>\n</head>\n<body>\n"@;
    let c2 = "<header>\n  <h1>"@;
    let d = "</h1>\n  <p class=\"meta\">Access level: <code>"@;
    let e =
        "</code></p>\n  <input type=\"search\" id=\"filter\" placeholder=\"Filter symbols…\" autocomplete=\"off\" autofocus>\n</header>\n<div class=\"layout\">\n  <nav id=\"nav\">"@;
    let e1 =
        "</code></p>\n  <input type=\"search\" id=\"filter\" placeholder=\"Filter symbols…\" autocomplete=\"off\" autofocus>\n</header>\n"@;
    let e2 = "<div class=\"layout\">\n  <nav id=\"nav\">"@;
    let n = "<ul class=\"nav-root\">\n"@ + "</ul>\n"@;
    let f = "</nav>\n  <main>"@;
    let g = "</main>\n</div>\n<script>"@;
    let g1 = "</main>\n</div>\n"@;
    let g2 = "<script>"@;
    let h = "</script>\n</body>\n</html>\n"@;
    let layout =
        "<div class=\"layout\">\n  <nav id=\"nav\"><ul class=\"nav-root\">\n</ul>\n</nav>\n  <main></main>\n</div>\n"@;
    assert(c =~= c1 + c2) by {
        reveal_strlit("</style>\n</head>\n<body>\n<header>\n  <h1>");
        reveal_strlit("</style>\n</head>\n<body>\n");
        reveal_strlit("<header>\n  <h1>");
    }
    assert(e =~= e1 + e2) by {
        reveal_strlit(
            "</code></p>\n  <input type=\"search\" id=\"filter\" placeholder=\"Filter symbols…\" autocomplete=\"off\" autofocus>\n</header>\n<div class=\"layout\">\n  <nav id=\"nav\">",
        );
        reveal_strlit(
            "</code></p>\n  <input type=\"search\" id=\"filter\" placeholder=\"Filter symbols…\" autocomplete=\"off\" autofocus>\n</header>\n",
        );
        reveal_strlit("<div class=\"layout\">\n  <nav id=\"nav\">");
    }
    assert(g =~= g1 + g2) by {
        reveal_strlit("</main>\n</div>\n<script>");
        reveal_strlit("</main>\n</div>\n");
        reveal_strlit("<script>");
    }
    assert(layout =~= e2 + n + f + g1) by {
        reveal_strlit(
            "<div class=\"layout\">\n  <nav id=\"nav\"><ul class=\"nav-root\">\n</ul>\n</nav>\n  <main></main>\n</div>\n",
        );
        reveal_strlit("<div class=\"layout\">\n  <nav id=\"nav\">");
        reveal_strlit("<ul class=\"nav-root\">\n");
        reveal_strlit("</ul>\n");
        reveal_strlit("</nav>\n  <main>");
        reveal_strlit("</main>\n</div>\n");
    }
    assert(nav_html(p) =~= n);
    let head = a + title + b + CSS@;
    let mid = name + d + level;
    assert(page_html(p) =~= head + c + mid + e + n + f + g + JS@ + h);
    assert(head + c + mid + e + n + f + g + JS@ + h =~= (head + c1) + (c2 + mid + e1) + (e2 + n + f
        + g1) + g2 + JS@ + h);
    assert(c2 + name + d + level + e1 =~= c2 + mid + e1);
}

} // verus!
