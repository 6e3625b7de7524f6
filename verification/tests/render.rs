use swift_api_tool::html::{
    group_element_start, html_escape, leaf_element, render_html, render_nav_nodes,
    render_nav_nodes_inner, render_node,
};
use swift_api_tool::markdown::{render_md, render_md_symbol};
use swift_api_tool::model::{ExtensionGroup, ModuleModel, PackageModel, SymbolNode};
use swift_api_tool::symbol_name::{abbreviate_signature, symbol_name};

fn leaf(decl: &str) -> SymbolNode {
    SymbolNode { decl: decl.to_string(), members: vec![] }
}

fn branch(decl: &str, members: Vec<SymbolNode>) -> SymbolNode {
    SymbolNode { decl: decl.to_string(), members }
}

fn package(modules: Vec<ModuleModel>) -> PackageModel {
    PackageModel { package: "De<mo".to_string(), access_level: "public".to_string(), modules }
}

fn sample() -> PackageModel {
    package(vec![
        ModuleModel {
            name: "A&B".to_string(),
            symbols: vec![
                branch("public struct S<T>\nwhere T: P", vec![leaf("public var x: Int")]),
                leaf("public func f(a: Int, to b: String)\n"),
            ],
            extensions: vec![ExtensionGroup {
                extended_module: "Swift".to_string(),
                symbols: vec![branch("extension Array", vec![leaf("public func Up()")])],
            }],
        },
        ModuleModel { name: "Empty".to_string(), symbols: vec![], extensions: vec![] },
        ModuleModel {
            name: "Ext".to_string(),
            symbols: vec![],
            extensions: vec![ExtensionGroup { extended_module: "UIKit".to_string(), symbols: vec![] }],
        },
    ])
}

fn abbreviated(sig: &str) -> String {
    let chars: Vec<char> = sig.chars().collect();
    abbreviate_signature(&chars)
}

#[test]
fn names_of_declarations() {
    assert_eq!(symbol_name("public func foo(x: Int, y: Int) -> Int"), "func foo(x:y:)");
    assert_eq!(symbol_name("@MainActor public static func foo(_ x: Int)"), "func foo(_:)");
    assert_eq!(symbol_name("@MainActor\npublic func foo()"), "func foo()");
    assert_eq!(symbol_name("@available(iOS 13, *)\n@B\r\n  open var x: Int"), "var x");
    assert_eq!(symbol_name("@available(iOS 13, *) func f(a: Int)"), "func f(a:)");
    assert_eq!(symbol_name("\n\npublic struct S\nmore"), "struct S");
    assert_eq!(symbol_name("@MainActor"), "");
    assert_eq!(symbol_name("@Foo(#\"a\"b\"#) public func x()"), "func x()");
    assert_eq!(symbol_name("@A(b func foo"), "func foo");
    assert_eq!(symbol_name("@A(b\nopen func foo(c: Int)"), "func foo(c:)");
    assert_eq!(symbol_name("@MainActor // main\npublic func foo()"), "func foo()");
    assert_eq!(symbol_name("@A @B(c 1"), "1");
    assert_eq!(symbol_name("public struct Foo<T>"), "struct Foo");
    assert_eq!(symbol_name("public var x: Int { get }"), "var x");
    assert_eq!(symbol_name("public init(a: Int)"), "init(a: Int)");
    assert_eq!(symbol_name("public init()"), "init()");
    assert_eq!(symbol_name("public final class Foo"), "Foo");
    assert_eq!(symbol_name("extension Array"), "extension Array");
    assert_eq!(symbol_name("case a(Int)\nmore"), "case a(Int:)");
    assert_eq!(symbol_name("func f(to output: X,with y: (A) -> B)"), "func f(to:with:)");
    assert_eq!(symbol_name("func f("), "func f");
    assert_eq!(symbol_name("func f( )"), "func f()");
    assert_eq!(symbol_name(""), "");
    assert_eq!(symbol_name("public"), "");
}

#[test]
fn signatures_are_reduced_to_labels() {
    assert_eq!(abbreviated("(x: Int, y: Int)"), "(x:y:)");
    assert_eq!(abbreviated("(to output: Int)"), "(to:)");
    assert_eq!(abbreviated("( )"), "()");
    assert_eq!(abbreviated("()"), "()");
    assert_eq!(abbreviated("(a,,b)"), "(a::b:)");
    assert_eq!(abbreviated(""), "");
    assert_eq!(abbreviated("x)"), "");
}

#[test]
fn escapes() {
    assert_eq!(html_escape("a<b>&\"c\"'é"), "a&lt;b&gt;&amp;&quot;c&quot;&#39;é");
    let texts = ["", "&", "&amp;", "&lt;", "<", ";", "&#39;", "'"];
    for a in texts {
        let e = html_escape(a);
        assert!(!e.contains(|c| c == '<' || c == '>' || c == '"' || c == '\''), "{}", e);
        for b in texts {
            assert_eq!(html_escape(a) == html_escape(b), a == b);
        }
    }
}

#[test]
fn elements() {
    assert_eq!(
        leaf_element("i\"d", "n<", "a > b \n"),
        "<div class=\"sym leaf\" id=\"i&quot;d\" data-name=\"n&lt;\"><pre><code>a &gt; b</code></pre></div>\n"
    );
    assert_eq!(
        group_element_start("id", "n", "d"),
        "<details class=\"sym\" id=\"id\" data-name=\"n\" open><summary><pre><code>d</code></pre></summary><div class=\"children\">\n"
    );
}

#[test]
fn nodes_are_searched_by_their_names_in_lower_case() {
    let mut out = "<!-- -->".to_string();
    render_node(&branch("public struct ÀBC", vec![leaf("public func XyZ(ΑΣ: Int)")]), "p-s0", &mut out);
    assert_eq!(
        out,
        "<!-- --><details class=\"sym\" id=\"p-s0\" data-name=\"struct àbc\" open><summary><pre><code>public struct ÀBC</code></pre></summary><div class=\"children\">\n\
         <div class=\"sym leaf\" id=\"p-s0-m0\" data-name=\"func xyz(ας:)\"><pre><code>public func XyZ(ΑΣ: Int)</code></pre></div>\n\
         </div></details>\n"
    );
}

#[test]
fn navigation_entries() {
    let nodes = vec![branch("struct A", vec![leaf("var b")]), leaf("func c()")];
    let mut out = String::new();
    render_nav_nodes(&nodes, "m", &mut out);
    assert_eq!(
        out,
        "<li><a href=\"#m-s0\">struct A</a><ul>\n\
         <li><a href=\"#m-s0-m0\">var b</a></li>\n\
         </ul></li>\n\
         <li><a href=\"#m-s1\">func c()</a></li>\n"
    );
    let mut inner = String::new();
    render_nav_nodes_inner(&vec![leaf("var b")], "m-s0", &mut inner);
    assert_eq!(inner, "<li><a href=\"#m-s0-m0\">var b</a></li>\n");
}

#[test]
fn html_page() {
    let page = render_html(&sample());
    assert!(page.starts_with(
        "<!DOCTYPE html>\n<html lang=\"en\">\n<head>\n<meta charset=\"utf-8\">\n<title>De&lt;mo – Public API</title>\n<style>"
    ));
    assert!(page.ends_with("</script>\n</body>\n</html>\n"));
    assert!(page.contains("<h1>De&lt;mo</h1>\n  <p class=\"meta\">Access level: <code>public</code></p>"));
    let nav = "<nav id=\"nav\"><ul class=\"nav-root\">\n\
        <li><a href=\"#mod-0\">A&amp;B</a>\n\
        <ul>\n\
        <li><a href=\"#mod-0-s0\">struct S</a><ul>\n\
        <li><a href=\"#mod-0-s0-m0\">var x</a></li>\n\
        </ul></li>\n\
        <li><a href=\"#mod-0-s1\">func f(a:to:)</a></li>\n\
        </ul>\n\
        <li><a href=\"#mod-0-e0\">ext: Swift</a>\n\
        <ul>\n\
        <li><a href=\"#mod-0-e0-s0\">extension Array</a><ul>\n\
        <li><a href=\"#mod-0-e0-s0-m0\">func Up()</a></li>\n\
        </ul></li>\n\
        </ul></li>\n\
        </li>\n\
        <li><a href=\"#mod-1\">Empty</a>\n\
        </li>\n\
        <li><a href=\"#mod-2\">Ext</a>\n\
        <li><a href=\"#mod-2-e0\">ext: UIKit</a>\n\
        <ul>\n\
        </ul></li>\n\
        </li>\n\
        </ul>\n\
        </nav>";
    assert!(page.contains(nav), "{}", page);
    let body = "<main><section class=\"module\" id=\"mod-0\"><h2>A&amp;B</h2>\n\
        <div class=\"symbols\">\n\
        <details class=\"sym\" id=\"mod-0-s0\" data-name=\"struct s\" open><summary><pre><code>public struct S&lt;T&gt;\nwhere T: P</code></pre></summary><div class=\"children\">\n\
        <div class=\"sym leaf\" id=\"mod-0-s0-m0\" data-name=\"var x\"><pre><code>public var x: Int</code></pre></div>\n\
        </div></details>\n\
        <div class=\"sym leaf\" id=\"mod-0-s1\" data-name=\"func f(a:to:)\"><pre><code>public func f(a: Int, to b: String)</code></pre></div>\n\
        </div>\n\
        <section class=\"ext\" id=\"mod-0-e0\"><h3>Extensions to <code>Swift</code></h3>\n\
        <div class=\"symbols\">\n\
        <details class=\"sym\" id=\"mod-0-e0-s0\" data-name=\"extension array\" open><summary><pre><code>extension Array</code></pre></summary><div class=\"children\">\n\
        <div class=\"sym leaf\" id=\"mod-0-e0-s0-m0\" data-name=\"func up()\"><pre><code>public func Up()</code></pre></div>\n\
        </div></details>\n\
        </div></section>\n\
        </section>\n\
        <section class=\"module\" id=\"mod-1\"><h2>Empty</h2>\n\
        </section>\n\
        <section class=\"module\" id=\"mod-2\"><h2>Ext</h2>\n\
        <section class=\"ext\" id=\"mod-2-e0\"><h3>Extensions to <code>UIKit</code></h3>\n\
        <div class=\"symbols\">\n\
        </div></section>\n\
        </section>\n\
        </main>";
    assert!(page.contains(body), "{}", page);
}

#[test]
fn links_lead_to_elements_of_their_own() {
    let page = render_html(&sample());
    let links: Vec<&str> =
        page.split(" href=\"#").skip(1).map(|s| s.split('"').next().unwrap()).collect();
    assert_eq!(links.len(), 10);
    for link in links {
        assert_eq!(page.matches(&format!(" id=\"{}\"", link)).count(), 1, "{}", link);
        assert_eq!(page.matches(&format!(" href=\"#{}\"", link)).count(), 1, "{}", link);
    }
}

#[test]
fn markdown_document() {
    assert_eq!(
        render_md(&sample()),
        "# De<mo\n\n_Public API surface. Access level: `public`._\n\n\
         ## Module `A&B`\n\n\
         ### `public struct S<T>`\n\n```swift\npublic struct S<T>\nwhere T: P\n```\n\n\
         #### `public var x: Int`\n\n```swift\npublic var x: Int\n```\n\n\
         ### `public func f(a: Int, to b: String)`\n\n```swift\npublic func f(a: Int, to b: String)\n```\n\n\
         ### Extensions to `Swift`\n\n\
         #### `extension Array`\n\n```swift\nextension Array\n```\n\n\
         ##### `public func Up()`\n\n```swift\npublic func Up()\n```\n\n\
         ## Module `Empty`\n\n_No symbol graph emitted._\n\n\
         ## Module `Ext`\n\n_No own symbols._\n\n### Extensions to `UIKit`\n\n"
    );
}

#[test]
fn headings_stop_at_six_marks() {
    let mut out = String::new();
    render_md_symbol(&branch("a", vec![branch("b", vec![leaf("c")])]), 5, &mut out);
    assert_eq!(
        out,
        "##### `a`\n\n```swift\na\n```\n\n###### `b`\n\n```swift\nb\n```\n\n###### `c`\n\n```swift\nc\n```\n\n"
    );
    let mut deep = String::new();
    render_md_symbol(&leaf("\n"), usize::MAX, &mut deep);
    assert_eq!(deep, "###### ``\n\n```swift\n\n```\n\n");
}

fn renamed(nodes: &[SymbolNode]) -> Vec<SymbolNode> {
    nodes
        .iter()
        .map(|n| branch("</code><script src=\"x\"> href=\"#mod-0\" id=\"mod-0\"", renamed(&n.members)))
        .collect()
}

#[test]
fn texts_add_no_markup() {
    let plain = sample();
    let mut other = sample();
    other.package = "<img src='x'>".to_string();
    other.access_level = "\"><link>".to_string();
    for m in &mut other.modules {
        m.name = " id=".to_string();
        m.symbols = renamed(&m.symbols);
        for e in &mut m.extensions {
            e.extended_module = "<style>".to_string();
            e.symbols = renamed(&e.symbols);
        }
    }
    let a = render_html(&plain);
    let b = render_html(&other);
    for c in ['<', '>', '"'] {
        assert_eq!(a.matches(c).count(), b.matches(c).count(), "{}", c);
    }
    for page in [&a, &b] {
        assert_eq!(page.matches("<script").count(), 1);
        assert_eq!(page.matches("<style").count(), 1);
        assert_eq!(page.matches("<link").count(), 0);
        assert_eq!(page.matches("<img").count(), 0);
        assert_eq!(page.matches("href=\"#").count(), 10);
        assert_eq!(page.matches(" id=\"mod-").count(), 10);
    }
}
