//! A package as a self-contained HTML page.

use vstd::prelude::*;

use crate::html_assets::{CSS, JS};
use crate::model::{
    ExtensionGroup, ExtensionTree, ModuleModel, ModuleTree, PackageModel, PackageTree, SymbolNode,
    SymbolTree,
};
use crate::order::views;
use crate::symbol_name::{short_name, symbol_name};
use crate::text::{chars_of, decimal, decimal_digits, string_of, trim_end, trimmed_end};

verus! {

/// What `str::to_lowercase` makes of a text.
pub uninterp spec fn lowercase(s: Seq<char>) -> Seq<char>;

/// `str::to_lowercase` gives the lowercase equivalent of a string, by the
/// Unicode rules. Its result is named, not described: it is `lowercase` of
/// the characters of the string.
pub assume_specification[ str::to_lowercase ](s: &str) -> (r: String)
    ensures
        r@ == lowercase(s@),
;

/// A character as it is written in HTML.
pub open spec fn escaped_char(c: char) -> Seq<char> {
    if c == '&' {
        "&amp;"@
    } else if c == '<' {
        "&lt;"@
    } else if c == '>' {
        "&gt;"@
    } else if c == '"' {
        "&quot;"@
    } else if c == '\'' {
        "&#39;"@
    } else {
        seq![c]
    }
}

/// A text as it is written in HTML.
pub open spec fn escaped(s: Seq<char>) -> Seq<char>
    decreases s.len(),
{
    if s.len() == 0 {
        s
    } else {
        escaped(s.drop_last()) + escaped_char(s.last())
    }
}

/// A text as it is written in HTML.
pub fn html_escape(s: &str) -> (r: String)
    ensures
        r@ == escaped(s@),
{
    let text = chars_of(s);
    let mut out = String::new();
    for i in 0..text.len()
        invariant
            text@ == s@,
            out@ == escaped(s@.take(i as int)),
    {
        let c = text[i];
        let ghost before = out@;
        assert(s@.take(i as int + 1).drop_last() =~= s@.take(i as int));
        if c == '&' {
            out.push_str("&amp;");
        } else if c == '<' {
            out.push_str("&lt;");
        } else if c == '>' {
            out.push_str("&gt;");
        } else if c == '"' {
            out.push_str("&quot;");
        } else if c == '\'' {
            out.push_str("&#39;");
        } else {
            out.push(c);
            assert(out@ =~= before + seq![c]);
        }
    }
    assert(s@.take(s@.len() as int) =~= s@);
    out
}

/// A declaration as it is written in HTML.
pub open spec fn code_html(decl: Seq<char>) -> Seq<char> {
    escaped(trimmed_end(decl))
}

/// The element of a declaration without members; `name` is what it is
/// searched by.
pub open spec fn leaf_html(id: Seq<char>, name: Seq<char>, decl: Seq<char>) -> Seq<char> {
    "<div class=\"sym leaf\" id=\""@ + escaped(id) + "\" data-name=\""@ + escaped(name)
        + "\"><pre><code>"@ + code_html(decl) + "</code></pre></div>\n"@
}

/// The start of the element of a declaration with members.
pub open spec fn group_open_html(id: Seq<char>, name: Seq<char>, decl: Seq<char>) -> Seq<char> {
    "<details class=\"sym\" id=\""@ + escaped(id) + "\" data-name=\""@ + escaped(name)
        + "\" open><summary><pre><code>"@ + code_html(decl)
        + "</code></pre></summary><div class=\"children\">\n"@
}

/// What a declaration is searched by: its short name in lower case.
pub open spec fn search_name(decl: Seq<char>) -> Seq<char> {
    lowercase(short_name(decl))
}

impl SymbolTree {
    /// The element of a declaration, with those of its members in it. The
    /// members are numbered: their ids are `<id>-m0`, `<id>-m1` and so on.
    pub open spec fn html(self, id: Seq<char>) -> Seq<char>
        decreases self,
    {
        if self.members.len() == 0 {
            leaf_html(id, search_name(self.decl), self.decl)
        } else {
            group_open_html(id, search_name(self.decl), self.decl) + nodes_html(
                self.members,
                id + "-m"@,
            ) + "</div></details>\n"@
        }
    }

    /// The entry of a declaration in the navigation, with those of its
    /// members in it.
    pub open spec fn nav(self, id: Seq<char>) -> Seq<char>
        decreases self,
    {
        if self.members.len() == 0 {
            link_html(id, short_name(self.decl)) + "</li>\n"@
        } else {
            link_html(id, short_name(self.decl)) + "<ul>\n"@ + navs_html(self.members, id + "-m"@)
                + "</ul></li>\n"@
        }
    }
}

/// The elements of declarations with the ids `<prefix>0`, `<prefix>1` and so on.
pub open spec fn nodes_html(f: Seq<SymbolTree>, prefix: Seq<char>) -> Seq<char>
    decreases f,
{
    if f.len() == 0 {
        seq![]
    } else {
        nodes_html(f.drop_last(), prefix) + f.last().html(
            prefix + decimal_digits((f.len() - 1) as nat),
        )
    }
}

/// A list item with a link to the element with an id, without its end.
pub open spec fn link_html(id: Seq<char>, text: Seq<char>) -> Seq<char> {
    "<li><a href=\"#"@ + escaped(id) + "\">"@ + escaped(text) + "</a>"@
}

/// The navigation entries of declarations with the ids `<prefix>0`,
/// `<prefix>1` and so on.
pub open spec fn navs_html(f: Seq<SymbolTree>, prefix: Seq<char>) -> Seq<char>
    decreases f,
{
    if f.len() == 0 {
        seq![]
    } else {
        navs_html(f.drop_last(), prefix) + f.last().nav(
            prefix + decimal_digits((f.len() - 1) as nat),
        )
    }
}

/// The element of a declaration without members.
pub fn leaf_element(id: &str, name: &str, decl: &str) -> (r: String)
    ensures
        r@ == leaf_html(id@, name@, decl@),
{
    let mut out = "<div class=\"sym leaf\" id=\"".to_string();
    out.push_str(html_escape(id).as_str());
    out.push_str("\" data-name=\"");
    out.push_str(html_escape(name).as_str());
    out.push_str("\"><pre><code>");
    out.push_str(escaped_code(decl).as_str());
    out.push_str("</code></pre></div>\n");
    out
}

/// The start of the element of a declaration with members.
pub fn group_element_start(id: &str, name: &str, decl: &str) -> (r: String)
    ensures
        r@ == group_open_html(id@, name@, decl@),
{
    let mut out = "<details class=\"sym\" id=\"".to_string();
    out.push_str(html_escape(id).as_str());
    out.push_str("\" data-name=\"");
    out.push_str(html_escape(name).as_str());
    out.push_str("\" open><summary><pre><code>");
    out.push_str(escaped_code(decl).as_str());
    out.push_str("</code></pre></summary><div class=\"children\">\n");
    out
}

fn escaped_code(decl: &str) -> (r: String)
    ensures
        r@ == code_html(decl@),
{
    let decl = chars_of(decl);
    html_escape(string_of(trim_end(decl.as_slice())).as_str())
}

/// Appends the element of a declaration, with those of its members in it.
pub fn render_node(node: &SymbolNode, id: &str, out: &mut String)
    ensures
        final(out)@ == old(out)@ + node@.html(id@),
    decreases node, 1nat,
{
    let ghost before = out@;
    proof {
        node.lemma_view();
    }
    let name = symbol_name(node.decl.as_str()).as_str().to_lowercase();
    if node.members.len() == 0 {
        out.push_str(leaf_element(id, name.as_str(), node.decl.as_str()).as_str());
    } else {
        out.push_str(group_element_start(id, name.as_str(), node.decl.as_str()).as_str());
        let mut prefix = id.to_string();
        prefix.push_str("-m");
        render_nodes(&node.members, prefix.as_str(), out);
        out.push_str("</div></details>\n");
        assert(out@ =~= before + node@.html(id@));
    }
}

/// Appends the elements of declarations, whose ids are `prefix` and a number.
fn render_nodes(nodes: &Vec<SymbolNode>, prefix: &str, out: &mut String)
    ensures
        final(out)@ == old(out)@ + nodes_html(views(nodes@), prefix@),
    decreases nodes, 0nat,
{
    let ghost before = out@;
    let ghost f = views(nodes@);
    assert(out@ =~= before + nodes_html(f.take(0), prefix@));
    for i in 0..nodes.len()
        invariant
            f == views(nodes@),
            out@ == before + nodes_html(f.take(i as int), prefix@),
    {
        assert(f.take(i as int + 1).drop_last() =~= f.take(i as int));
        let mut id = prefix.to_string();
        id.push_str(decimal(i).as_str());
        render_node(&nodes[i], id.as_str(), out);
        assert(out@ =~= before + nodes_html(f.take(i as int + 1), prefix@));
    }
    assert(f.take(nodes@.len() as int) =~= f);
}

/// A list item with a link to the element with an id, without its end.
fn link(id: &str, text: &str) -> (r: String)
    ensures
        r@ == link_html(id@, text@),
{
    let mut out = "<li><a href=\"#".to_string();
    out.push_str(html_escape(id).as_str());
    out.push_str("\">");
    out.push_str(html_escape(text).as_str());
    out.push_str("</a>");
    out
}

/// Appends the navigation entries of the top declarations of a module or an
/// extension group.
pub fn render_nav_nodes(nodes: &Vec<SymbolNode>, parent_id: &str, out: &mut String)
    ensures
        final(out)@ == old(out)@ + navs_html(views(nodes@), parent_id@ + "-s"@),
{
    let mut prefix = parent_id.to_string();
    prefix.push_str("-s");
    render_nav_entries(nodes, prefix.as_str(), out);
}

/// Appends the navigation entries of the members of a declaration.
pub fn render_nav_nodes_inner(nodes: &Vec<SymbolNode>, parent_id: &str, out: &mut String)
    ensures
        final(out)@ == old(out)@ + navs_html(views(nodes@), parent_id@ + "-m"@),
    decreases nodes, 1nat,
{
    let mut prefix = parent_id.to_string();
    prefix.push_str("-m");
    render_nav_entries(nodes, prefix.as_str(), out);
}

/// Appends the navigation entries of declarations, whose ids are `prefix` and
/// a number.
fn render_nav_entries(nodes: &Vec<SymbolNode>, prefix: &str, out: &mut String)
    ensures
        final(out)@ == old(out)@ + navs_html(views(nodes@), prefix@),
    decreases nodes, 0nat,
{
    let ghost before = out@;
    let ghost f = views(nodes@);
    assert(out@ =~= before + navs_html(f.take(0), prefix@));
    for i in 0..nodes.len()
        invariant
            f == views(nodes@),
            out@ == before + navs_html(f.take(i as int), prefix@),
    {
        let n = &nodes[i];
        let ghost now = out@;
        proof {
            assert(f.take(i as int + 1).drop_last() =~= f.take(i as int));
            n.lemma_view();
            assert(decreases_to!(nodes => nodes@));
            assert(decreases_to!(nodes@ => nodes@[i as int]));
        }
        let mut id = prefix.to_string();
        id.push_str(decimal(i).as_str());
        out.push_str(link(id.as_str(), symbol_name(n.decl.as_str()).as_str()).as_str());
        if n.members.len() == 0 {
            out.push_str("</li>\n");
        } else {
            out.push_str("<ul>\n");
            render_nav_nodes_inner(&n.members, id.as_str(), out);
            out.push_str("</ul></li>\n");
        }
        assert(out@ =~= now + n@.nav(id@));
        assert(out@ =~= before + navs_html(f.take(i as int + 1), prefix@));
    }
    assert(f.take(nodes@.len() as int) =~= f);
}

impl ExtensionTree {
    /// The section of an extension group.
    pub open spec fn html(self, id: Seq<char>) -> Seq<char> {
        "<section class=\"ext\" id=\""@ + escaped(id) + "\"><h3>Extensions to <code>"@ + escaped(
            self.extended_module,
        ) + "</code></h3>\n<div class=\"symbols\">\n"@ + nodes_html(self.symbols, id + "-s"@)
            + "</div></section>\n"@
    }

    /// The entry of an extension group in the navigation.
    pub open spec fn nav(self, id: Seq<char>) -> Seq<char> {
        "<li><a href=\"#"@ + escaped(id) + "\">ext: "@ + escaped(self.extended_module)
            + "</a>\n<ul>\n"@ + navs_html(self.symbols, id + "-s"@) + "</ul></li>\n"@
    }
}

/// The sections of extension groups with the ids `<prefix>0`, `<prefix>1` and so on.
pub open spec fn extensions_html(f: Seq<ExtensionTree>, prefix: Seq<char>) -> Seq<char>
    decreases f.len(),
{
    if f.len() == 0 {
        seq![]
    } else {
        extensions_html(f.drop_last(), prefix) + f.last().html(
            prefix + decimal_digits((f.len() - 1) as nat),
        )
    }
}

/// The navigation entries of extension groups with the ids `<prefix>0`,
/// `<prefix>1` and so on.
pub open spec fn extensions_nav(f: Seq<ExtensionTree>, prefix: Seq<char>) -> Seq<char>
    decreases f.len(),
{
    if f.len() == 0 {
        seq![]
    } else {
        extensions_nav(f.drop_last(), prefix) + f.last().nav(
            prefix + decimal_digits((f.len() - 1) as nat),
        )
    }
}

impl ModuleTree {
    /// The section of a module.
    pub open spec fn html(self, id: Seq<char>) -> Seq<char> {
        "<section class=\"module\" id=\""@ + escaped(id) + "\"><h2>"@ + escaped(self.name)
            + "</h2>\n"@ + (if self.symbols.len() > 0 {
            "<div class=\"symbols\">\n"@ + nodes_html(self.symbols, id + "-s"@) + "</div>\n"@
        } else {
            seq![]
        }) + extensions_html(self.extensions, id + "-e"@) + "</section>\n"@
    }

    /// The entry of a module in the navigation.
    pub open spec fn nav(self, id: Seq<char>) -> Seq<char> {
        link_html(id, self.name) + "\n"@ + (if self.symbols.len() > 0 {
            "<ul>\n"@ + navs_html(self.symbols, id + "-s"@) + "</ul>\n"@
        } else {
            seq![]
        }) + extensions_nav(self.extensions, id + "-e"@) + "</li>\n"@
    }
}

/// The id of a module.
pub open spec fn module_id(i: nat) -> Seq<char> {
    "mod-"@ + decimal_digits(i)
}

/// The sections of modules.
pub open spec fn modules_html(f: Seq<ModuleTree>) -> Seq<char>
    decreases f.len(),
{
    if f.len() == 0 {
        seq![]
    } else {
        modules_html(f.drop_last()) + f.last().html(module_id((f.len() - 1) as nat))
    }
}

/// The navigation entries of modules.
pub open spec fn modules_nav(f: Seq<ModuleTree>) -> Seq<char>
    decreases f.len(),
{
    if f.len() == 0 {
        seq![]
    } else {
        modules_nav(f.drop_last()) + f.last().nav(module_id((f.len() - 1) as nat))
    }
}

/// The navigation of a page.
pub open spec fn nav_html(p: PackageTree) -> Seq<char> {
    "<ul class=\"nav-root\">\n"@ + modules_nav(p.modules) + "</ul>\n"@
}

/// The page of a package.
pub open spec fn page_html(p: PackageTree) -> Seq<char> {
    "<!DOCTYPE html>\n<html lang=\"en\">\n<head>\n<meta charset=\"utf-8\">\n<title>"@ + escaped(
        p.package + " – Public API"@,
    ) + "</title>\n<style>"@ + CSS@ + "</style>\n</head>\n<body>\n<header>\n  <h1>"@ + escaped(
        p.package,
    ) + "</h1>\n  <p class=\"meta\">Access level: <code>"@ + escaped(p.access_level)
        + "</code></p>\n  <input type=\"search\" id=\"filter\" placeholder=\"Filter symbols…\" autocomplete=\"off\" autofocus>\n</header>\n<div class=\"layout\">\n  <nav id=\"nav\">"@
        + nav_html(p) + "</nav>\n  <main>"@ + modules_html(p.modules)
        + "</main>\n</div>\n<script>"@ + JS@ + "</script>\n</body>\n</html>\n"@
}

/// Appends the section of an extension group.
fn render_extension(e: &ExtensionGroup, id: &str, body: &mut String)
    ensures
        final(body)@ == old(body)@ + e@.html(id@),
{
    let ghost before = body@;
    body.push_str("<section class=\"ext\" id=\"");
    body.push_str(html_escape(id).as_str());
    body.push_str("\"><h3>Extensions to <code>");
    body.push_str(html_escape(e.extended_module.as_str()).as_str());
    body.push_str("</code></h3>\n<div class=\"symbols\">\n");
    let mut prefix = id.to_string();
    prefix.push_str("-s");
    render_nodes(&e.symbols, prefix.as_str(), body);
    body.push_str("</div></section>\n");
    assert(body@ =~= before + e@.html(id@));
}

/// Appends the navigation entry of an extension group.
fn render_extension_nav(e: &ExtensionGroup, id: &str, nav: &mut String)
    ensures
        final(nav)@ == old(nav)@ + e@.nav(id@),
{
    let ghost before = nav@;
    nav.push_str("<li><a href=\"#");
    nav.push_str(html_escape(id).as_str());
    nav.push_str("\">ext: ");
    nav.push_str(html_escape(e.extended_module.as_str()).as_str());
    nav.push_str("</a>\n<ul>\n");
    render_nav_nodes(&e.symbols, id, nav);
    nav.push_str("</ul></li>\n");
    assert(nav@ =~= before + e@.nav(id@));
}

/// Appends the sections of extension groups, whose ids are `prefix` and a
/// number.
fn render_extensions(list: &Vec<ExtensionGroup>, prefix: &str, out: &mut String)
    ensures
        final(out)@ == old(out)@ + extensions_html(views(list@), prefix@),
{
    let ghost before = out@;
    let ghost f = views(list@);
    assert(out@ =~= before + extensions_html(f.take(0), prefix@));
    for i in 0..list.len()
        invariant
            f == views(list@),
            out@ == before + extensions_html(f.take(i as int), prefix@),
    {
        assert(f.take(i as int + 1).drop_last() =~= f.take(i as int));
        let mut id = prefix.to_string();
        id.push_str(decimal(i).as_str());
        render_extension(&list[i], id.as_str(), out);
        assert(out@ =~= before + extensions_html(f.take(i as int + 1), prefix@));
    }
    assert(f.take(list@.len() as int) =~= f);
}

/// Appends the navigation entries of extension groups, whose ids are `prefix`
/// and a number.
fn render_extensions_nav(list: &Vec<ExtensionGroup>, prefix: &str, out: &mut String)
    ensures
        final(out)@ == old(out)@ + extensions_nav(views(list@), prefix@),
{
    let ghost before = out@;
    let ghost f = views(list@);
    assert(out@ =~= before + extensions_nav(f.take(0), prefix@));
    for i in 0..list.len()
        invariant
            f == views(list@),
            out@ == before + extensions_nav(f.take(i as int), prefix@),
    {
        assert(f.take(i as int + 1).drop_last() =~= f.take(i as int));
        let mut id = prefix.to_string();
        id.push_str(decimal(i).as_str());
        render_extension_nav(&list[i], id.as_str(), out);
        assert(out@ =~= before + extensions_nav(f.take(i as int + 1), prefix@));
    }
    assert(f.take(list@.len() as int) =~= f);
}

/// Appends the navigation entry of a module.
fn render_module_nav(m: &ModuleModel, id: &str, out: &mut String)
    ensures
        final(out)@ == old(out)@ + m@.nav(id@),
{
    let ghost start = out@;
    let ghost list = if m@.symbols.len() > 0 {
        "<ul>\n"@ + navs_html(m@.symbols, id@ + "-s"@) + "</ul>\n"@
    } else {
        seq![]
    };
    out.push_str(link(id, m.name.as_str()).as_str());
    out.push_str("\n");
    let ghost before = out@;
    if m.symbols.len() > 0 {
        out.push_str("<ul>\n");
        render_nav_nodes(&m.symbols, id, out);
        out.push_str("</ul>\n");
    }
    assert(out@ =~= before + list);
    let mut prefix = id.to_string();
    prefix.push_str("-e");
    render_extensions_nav(&m.extensions, prefix.as_str(), out);
    out.push_str("</li>\n");
    assert(out@ =~= start + m@.nav(id@));
}

/// Appends the section of a module.
fn render_module(m: &ModuleModel, id: &str, out: &mut String)
    ensures
        final(out)@ == old(out)@ + m@.html(id@),
{
    let ghost start = out@;
    let ghost list = if m@.symbols.len() > 0 {
        "<div class=\"symbols\">\n"@ + nodes_html(m@.symbols, id@ + "-s"@) + "</div>\n"@
    } else {
        seq![]
    };
    out.push_str("<section class=\"module\" id=\"");
    out.push_str(html_escape(id).as_str());
    out.push_str("\"><h2>");
    out.push_str(html_escape(m.name.as_str()).as_str());
    out.push_str("</h2>\n");
    let ghost before = out@;
    if m.symbols.len() > 0 {
        out.push_str("<div class=\"symbols\">\n");
        let mut prefix = id.to_string();
        prefix.push_str("-s");
        render_nodes(&m.symbols, prefix.as_str(), out);
        out.push_str("</div>\n");
    }
    assert(out@ =~= before + list);
    let mut prefix = id.to_string();
    prefix.push_str("-e");
    render_extensions(&m.extensions, prefix.as_str(), out);
    out.push_str("</section>\n");
    assert(out@ =~= start + m@.html(id@));
}

/// A package as a self-contained HTML page.
pub fn render_html(model: &PackageModel) -> (r: String)
    ensures
        r@ == page_html(model@),
{
    let mut body = String::new();
    let mut nav = "<ul class=\"nav-root\">\n".to_string();
    let ghost f = views(model.modules@);
    assert(body@ =~= modules_html(f.take(0)));
    assert(nav@ =~= "<ul class=\"nav-root\">\n"@ + modules_nav(f.take(0)));
    for i in 0..model.modules.len()
        invariant
            f == views(model.modules@),
            body@ == modules_html(f.take(i as int)),
            nav@ == "<ul class=\"nav-root\">\n"@ + modules_nav(f.take(i as int)),
    {
        assert(f.take(i as int + 1).drop_last() =~= f.take(i as int));
        let mut id = "mod-".to_string();
        id.push_str(decimal(i).as_str());
        render_module_nav(&model.modules[i], id.as_str(), &mut nav);
        render_module(&model.modules[i], id.as_str(), &mut body);
        assert(nav@ =~= "<ul class=\"nav-root\">\n"@ + modules_nav(f.take(i as int + 1)));
    }
    assert(f.take(model.modules@.len() as int) =~= f);
    nav.push_str("</ul>\n");

    let mut title = model.package.clone();
    title.push_str(" – Public API");
    let mut out =
        "<!DOCTYPE html>\n<html lang=\"en\">\n<head>\n<meta charset=\"utf-8\">\n<title>".to_string();
    out.push_str(html_escape(title.as_str()).as_str());
    out.push_str("</title>\n<style>");
    out.push_str(CSS);
    out.push_str("</style>\n</head>\n<body>\n<header>\n  <h1>");
    out.push_str(html_escape(model.package.as_str()).as_str());
    out.push_str("</h1>\n  <p class=\"meta\">Access level: <code>");
    out.push_str(html_escape(model.access_level.as_str()).as_str());
    out.push_str("</code></p>\n  <input type=\"search\" id=\"filter\" placeholder=\"Filter symbols…\" autocomplete=\"off\" autofocus>\n</header>\n<div class=\"layout\">\n  <nav id=\"nav\">");
    out.push_str(nav.as_str());
    out.push_str("</nav>\n  <main>");
    out.push_str(body.as_str());
    out.push_str("</main>\n</div>\n<script>");
    out.push_str(JS);
    out.push_str("</script>\n</body>\n</html>\n");
    out
}

} // verus!
