use swift_api_tool::diff::{diff_extensions, diff_module, diff_packages, diff_symbols, key_symbols, module_as, symbol_as};
use swift_api_tool::model::{ExtensionGroup, ModuleModel, PackageModel, SymbolNode};
use swift_api_tool::report::{DiffReport, ExtensionDiff, ModuleDiff, NodeStatus, SymbolDiff};
use swift_api_tool::report_output::{
    paint, render_markdown, render_symbol_md, render_symbol_text, render_text, status_line, Style,
};
use swift_api_tool::tally::count;

fn leaf(decl: &str) -> SymbolNode {
    SymbolNode { decl: decl.to_string(), members: vec![] }
}

fn branch(decl: &str, members: Vec<SymbolNode>) -> SymbolNode {
    SymbolNode { decl: decl.to_string(), members }
}

fn group(name: &str, symbols: Vec<SymbolNode>) -> ExtensionGroup {
    ExtensionGroup { extended_module: name.to_string(), symbols }
}

fn module(name: &str, symbols: Vec<SymbolNode>, extensions: Vec<ExtensionGroup>) -> ModuleModel {
    ModuleModel { name: name.to_string(), symbols, extensions }
}

fn package(modules: Vec<ModuleModel>) -> PackageModel {
    PackageModel { package: "P".to_string(), access_level: "public".to_string(), modules }
}

/// The entries of a report in short: marker, declaration, members.
fn short(entries: &[SymbolDiff]) -> String {
    entries
        .iter()
        .map(|e| {
            let status = match &e.status {
                NodeStatus::Same => "=".to_string(),
                NodeStatus::Added => "+".to_string(),
                NodeStatus::Removed => "-".to_string(),
                NodeStatus::Changed { old_decl } => format!("~<{}>", old_decl),
            };
            format!("{}{}[{}]", status, e.decl, short(&e.members))
        })
        .collect::<Vec<_>>()
        .join(" ")
}

fn old_package() -> PackageModel {
    package(vec![
        module("Gone", vec![leaf("public func g()")], vec![]),
        module(
            "Kept",
            vec![
                branch("public struct A", vec![leaf("public func x()"), leaf("public func y()")]),
                leaf("public func same()"),
            ],
            vec![
                group("Swift", vec![branch("extension Array", vec![leaf("public func a()")])]),
                group("UIKit", vec![leaf("extension UIView")]),
            ],
        ),
    ])
}

fn new_package() -> PackageModel {
    package(vec![
        module(
            "Kept",
            vec![
                branch("open struct A", vec![leaf("public func x()"), leaf("public func z()")]),
                leaf("public func same()"),
            ],
            vec![
                group("AppKit", vec![leaf("extension NSView")]),
                group("Swift", vec![branch("extension Array", vec![leaf("public func b()")])]),
            ],
        ),
        module("New", vec![], vec![]),
    ])
}

#[test]
fn pairs_by_identity() {
    let old = [leaf("public func a()"), leaf("public func b()")];
    let new = [leaf("open func b()"), leaf("public func c()")];
    assert_eq!(
        short(&diff_symbols(&old, &new)),
        "-public func a()[] ~<public func b()>open func b()[] +public func c()[]"
    );
}

#[test]
fn an_attribute_on_the_same_line_is_a_change() {
    let old = [leaf("public func foo()")];
    let new = [leaf("@MainActor public func foo()")];
    assert_eq!(
        short(&diff_symbols(&old, &new)),
        "~<public func foo()>@MainActor public func foo()[]"
    );
}

#[test]
fn overloads_pair_by_their_text() {
    let old = [
        branch("@A\npublic func f()", vec![leaf("m")]),
        leaf("public func f()"),
    ];
    let new = [
        branch("@A\npublic func f()", vec![leaf("n")]),
        leaf("@B\npublic func f()"),
        leaf("open func f()"),
    ];
    assert_eq!(
        short(&diff_symbols(&old, &new)),
        "=@A\npublic func f()[-m[] +n[]] +@B\npublic func f()[] +open func f()[] -public func f()[]"
    );
}

#[test]
fn of_equal_overloads_the_last_counts() {
    let old = [
        branch("func f()", vec![leaf("a")]),
        branch("func f()", vec![leaf("b")]),
    ];
    let new = [branch("func f()", vec![leaf("b")])];
    assert_eq!(short(&diff_symbols(&old, &new)), "");
}

#[test]
fn keys_hold_the_declarations_in_their_order() {
    let list = [leaf("public func f()"), leaf("var x"), leaf("open func f()")];
    let keyed = key_symbols(&list);
    assert_eq!(keyed.len(), 2);
    assert_eq!(keyed.key_at(0), "func f()");
    let decls: Vec<&str> = keyed.value_at(0).iter().map(|s| s.decl.as_str()).collect();
    assert_eq!(decls, ["public func f()", "open func f()"]);
    assert_eq!(keyed.key_at(1), "var x");
}

#[test]
fn one_status_throughout() {
    let d = symbol_as(&branch("a", vec![branch("b", vec![leaf("c")])]), &NodeStatus::Removed);
    assert_eq!(short(&[d]), "-a[-b[-c[]]]");
    let m = module("M", vec![leaf("s")], vec![group("E", vec![leaf("t")])]);
    let added = module_as(&m, NodeStatus::Added);
    assert!(matches!(added.status, NodeStatus::Added));
    assert_eq!(short(&added.symbols), "+s[]");
    assert!(matches!(added.extensions[0].status, NodeStatus::Added));
    assert_eq!(short(&added.extensions[0].symbols), "+t[]");
    let same = module_as(&m, NodeStatus::Changed { old_decl: "x".to_string() });
    assert!(matches!(same.status, NodeStatus::Changed { .. }));
    assert_eq!(short(&same.symbols), "=s[]");
}

#[test]
fn extension_groups_pair_by_name() {
    let old = vec![group("B", vec![leaf("x")]), group("A", vec![leaf("x")])];
    let new = vec![group("C", vec![]), group("B", vec![leaf("y")])];
    let r = diff_extensions(&old, &new);
    let names: Vec<&str> = r.iter().map(|e| e.extended_module.as_str()).collect();
    assert_eq!(names, ["A", "B", "C"]);
    assert!(matches!(r[0].status, NodeStatus::Removed));
    assert!(matches!(r[1].status, NodeStatus::Same));
    assert_eq!(short(&r[1].symbols), "-x[] +y[]");
    assert!(matches!(r[2].status, NodeStatus::Added));
    assert!(r[2].symbols.is_empty());
    assert!(r[0].has_breaking());
    assert!(!r[2].has_breaking());
}

#[test]
fn of_modules_with_one_name_the_last_counts() {
    let twice = package(vec![
        module("M", vec![leaf("a")], vec![]),
        module("M", vec![leaf("b")], vec![]),
    ]);
    let once = package(vec![module("M", vec![leaf("b")], vec![])]);
    assert!(diff_packages(&twice, &once).is_empty());
}

#[test]
fn a_module_without_differences_is_left_out() {
    let d = diff_module(&module("M", vec![leaf("a")], vec![]), &module("N", vec![leaf("a")], vec![]));
    assert_eq!(d.name, "N");
    assert!(!d.any_changes());
    assert!(!d.has_breaking());
}

#[test]
fn default_report_is_empty() {
    let r = DiffReport::default();
    assert!(r.is_empty());
    assert!(!r.has_breaking());
    assert_eq!(count(&r), (0, 0, 0));
}

#[test]
fn a_package_does_not_differ_from_itself() {
    for p in [old_package(), new_package()] {
        let r = diff_packages(&p, &p);
        assert!(r.modules.is_empty());
        assert_eq!(render_text(&r, true), "No API differences.\n");
        assert_eq!(render_markdown(&r), "**No API differences.**\n");
    }
}

#[test]
fn counts_go_with_differences_and_breaks() {
    let r = diff_packages(&old_package(), &new_package());
    assert_eq!(count(&r), (5, 6, 1));
    assert!(!r.is_empty());
    assert!(r.has_breaking());
    let additions = diff_packages(&package(vec![]), &new_package());
    assert_eq!(count(&additions), (11, 0, 0));
    assert!(!additions.has_breaking());
}

#[test]
fn reversed_counts() {
    assert_eq!(count(&diff_packages(&new_package(), &old_package())), (6, 5, 1));
}

#[test]
fn nothing_in_common_counts_all() {
    let old = [branch("a", vec![leaf("b"), leaf("c")]), leaf("d")];
    let new = [branch("e", vec![leaf("b")])];
    assert_eq!(short(&diff_symbols(&old, &new)), "-a[-b[] -c[]] -d[] +e[+b[]]");
}

#[test]
fn text_report() {
    let r = diff_packages(&old_package(), &new_package());
    assert_eq!(
        render_text(&r, false),
        "API differences: 5 added, 6 removed, 1 changed\n\n\
         - Module Gone\n\
         \x20 - public func g()\n\
         \n\
         \x20 Module Kept\n\
         \x20 ~ open struct A\n\
         \x20   was: public struct A\n\
         \x20   - public func y()\n\
         \x20   + public func z()\n\
         \x20 + extension AppKit\n\
         \x20   + extension NSView\n\
         \x20   extension Swift\n\
         \x20     extension Array\n\
         \x20     - public func a()\n\
         \x20     + public func b()\n\
         \x20 - extension UIKit\n\
         \x20   - extension UIView\n\
         \n\
         + Module New\n\
         \n"
    );
}

#[test]
fn markdown_report() {
    let r = diff_packages(&old_package(), &new_package());
    assert_eq!(
        render_markdown(&r),
        "### API differences\n\n- **Added:** 5\n- **Removed:** 6\n- **Changed:** 1\n\n\
         #### ➖ Module `Gone`\n\n\
         - ➖ `public func g()`\n\n\
         #### Module `Kept`\n\n\
         - ✎ `open struct A`\n\
         \x20 - was: `public struct A`\n\
         \x20 - ➖ `public func y()`\n\
         \x20 - ➕ `public func z()`\n\
         - ➕ extension `AppKit`\n\
         \x20 - ➕ `extension NSView`\n\
         - extension `Swift`\n\
         \x20 - • `extension Array`\n\
         \x20   - ➖ `public func a()`\n\
         \x20   - ➕ `public func b()`\n\
         - ➖ extension `UIKit`\n\
         \x20 - ➖ `extension UIView`\n\n\
         #### ➕ Module `New`\n\n\n"
    );
}

#[test]
fn painted_texts() {
    assert_eq!(paint("x", Style::Red, true), "\x1b[31mx\x1b[0m");
    assert_eq!(paint("x", Style::Green, true), "\x1b[32mx\x1b[0m");
    assert_eq!(paint("x", Style::Yellow, true), "\x1b[33mx\x1b[0m");
    assert_eq!(paint("x", Style::Dim, true), "\x1b[2mx\x1b[0m");
    assert_eq!(paint("x", Style::Plain, true), "x");
    assert_eq!(paint("x", Style::Red, false), "x");
}

#[test]
fn status_lines() {
    assert_eq!(status_line(&NodeStatus::Same, "a", true, "  "), "    a\n");
    assert_eq!(
        status_line(&NodeStatus::Added, "a", true, ""),
        "\x1b[32m+\x1b[0m \x1b[32ma\x1b[0m\n"
    );
    assert_eq!(status_line(&NodeStatus::Removed, "a", false, " "), " - a\n");
    let changed = NodeStatus::Changed { old_decl: "b".to_string() };
    assert_eq!(status_line(&changed, "a", false, ""), "~ a\n");
}

#[test]
fn entries_show_their_first_lines() {
    let entry = SymbolDiff {
        decl: "  func a()\nwhere T: X".to_string(),
        status: NodeStatus::Changed { old_decl: "func a()\r\nwhere T: Y".to_string() },
        members: vec![SymbolDiff { decl: String::new(), status: NodeStatus::Added, members: vec![] }],
    };
    let mut text = "> ".to_string();
    render_symbol_text(&entry, "  ", true, &mut text);
    assert_eq!(
        text,
        ">   \x1b[33m~\x1b[0m \x1b[33mfunc a()\x1b[0m\n    \x1b[2mwas:\x1b[0m \x1b[2mfunc a()\x1b[0m\n    \x1b[32m+\x1b[0m \x1b[32m\x1b[0m\n"
    );
    let mut md = String::new();
    render_symbol_md(&entry, "", &mut md);
    assert_eq!(md, "- ✎ `func a()`\n  - was: `func a()`\n  - ➕ ``\n");
}

#[test]
fn escapes_follow_colors() {
    let r = diff_packages(&old_package(), &new_package());
    assert!(render_text(&r, true).contains('\x1b'));
    assert!(!render_text(&r, false).contains('\x1b'));
    assert!(!render_markdown(&r).contains('\x1b'));
}

#[test]
fn a_report_with_idle_entries() {
    let r = DiffReport {
        modules: vec![ModuleDiff {
            name: "M".to_string(),
            status: NodeStatus::Same,
            symbols: vec![],
            extensions: vec![ExtensionDiff {
                extended_module: "E".to_string(),
                status: NodeStatus::Same,
                symbols: vec![],
            }],
        }],
    };
    assert!(!r.is_empty());
    assert!(!r.has_breaking());
    assert_eq!(count(&r), (0, 0, 0));
    assert_eq!(
        render_text(&r, true),
        "API differences: 0 added, 0 removed, 0 changed\n\n  Module M\n    extension E\n\n"
    );
}

#[test]
fn additions_anywhere_break_nothing() {
    let mut grown = old_package();
    grown.modules.insert(0, module("First", vec![leaf("public func n()")], vec![]));
    let kept = &mut grown.modules[2];
    kept.symbols.insert(0, branch("public enum E", vec![leaf("case a")]));
    kept.symbols[1].members.insert(1, leaf("@A public func between()"));
    kept.extensions.push(group("Zed", vec![leaf("extension Z")]));
    kept.extensions[0].symbols[0].members.insert(0, leaf("public func c()"));
    let r = diff_packages(&old_package(), &grown);
    assert_eq!(count(&r), (8, 0, 0));
    assert!(!r.has_breaking());
}

#[test]
fn colors_add_nothing_but_escapes() {
    let r = diff_packages(&old_package(), &new_package());
    let mut text = render_text(&r, true);
    for e in ["\x1b[2m", "\x1b[31m", "\x1b[32m", "\x1b[33m", "\x1b[0m"] {
        assert!(text.contains(e), "{:?}", e);
        text = text.replace(e, "");
    }
    assert_eq!(text, render_text(&r, false));
}
