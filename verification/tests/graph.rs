use swift_api_tool::declaration::{render_constraints, render_declaration};
use swift_api_tool::graph::{ext_graph_to_nodes, graph_to_nodes};
use swift_api_tool::model::SymbolNode;
use swift_api_tool::module_files::{
    build_module_model, build_package_model, file_role, is_symbols_file, is_wanted_file, FileRole,
    GraphFile,
};
use swift_api_tool::symbols::{
    kind_rank, sort_symbols, Constraint, Fragment, Identifier, Kind, Relationship, SwiftExtension,
    Symbol, SymbolGraph,
};

fn fragment(kind: &str, spelling: &str) -> Fragment {
    Fragment { kind: kind.to_string(), spelling: spelling.to_string() }
}

fn symbol(usr: &str, kind: &str, path: &[&str], text: &str) -> Symbol {
    Symbol {
        identifier: Identifier { precise: usr.to_string() },
        kind: Kind { identifier: kind.to_string() },
        path_components: path.iter().map(|s| s.to_string()).collect(),
        access_level: "public".to_string(),
        declaration_fragments: vec![fragment("keyword", text)],
        swift_extension: None,
    }
}

fn member(source: &str, target: &str) -> Relationship {
    Relationship {
        source: source.to_string(),
        target: target.to_string(),
        kind: "memberOf".to_string(),
    }
}

/// The trees in short: declaration and members.
fn short(nodes: &[SymbolNode]) -> String {
    nodes
        .iter()
        .map(|n| format!("{}[{}]", n.decl, short(&n.members)))
        .collect::<Vec<_>>()
        .join(" ")
}

fn sample_symbols() -> Vec<Symbol> {
    vec![
        symbol("s:f", "swift.func", &["f"], "func f()"),
        symbol("s:A.m", "swift.method", &["A", "m"], "func m()"),
        symbol("s:A", "swift.struct", &["A"], "struct A"),
        symbol("s:A.B", "swift.enum", &["A", "B"], "enum B"),
        symbol("s:A.B.c", "swift.enum.case", &["A", "B", "c"], "case c"),
        symbol("s:A.x::SYNTHESIZED::s:A", "swift.method", &["A", "x"], "func x()"),
        symbol("s:P", "swift.protocol", &["P"], "protocol P"),
        symbol("s:Z.z", "swift.property", &["Z", "z"], "var z"),
    ]
}

fn sample_relationships() -> Vec<Relationship> {
    vec![
        member("s:A.m", "s:A"),
        member("s:A.B", "s:A"),
        member("s:A.B.c", "s:A.B"),
        member("s:A.x::SYNTHESIZED::s:A", "s:A"),
        member("s:Z.z", "s:Z"),
        Relationship {
            source: "s:A".to_string(),
            target: "s:P".to_string(),
            kind: "conformsTo".to_string(),
        },
    ]
}

fn sample_graph() -> SymbolGraph {
    SymbolGraph { symbols: sample_symbols(), relationships: sample_relationships() }
}

const SAMPLE_TREES: &str = "public protocol P[] \
     public struct A[public enum B[public case c[]] public func m()[]] \
     public var z[] public func f()[]";

#[test]
fn symbols_are_nested_and_sorted() {
    assert_eq!(short(&graph_to_nodes(&sample_graph())), SAMPLE_TREES);
}

#[test]
fn the_order_of_a_graph_does_not_matter() {
    let mut graph = sample_graph();
    graph.symbols.reverse();
    graph.relationships.reverse();
    assert_eq!(short(&graph_to_nodes(&graph)), SAMPLE_TREES);
}

#[test]
fn every_written_symbol_has_one_place() {
    let text = short(&graph_to_nodes(&sample_graph()));
    for s in sample_symbols() {
        let n = text.matches(&render_declaration(&s)).count();
        if s.identifier.precise.contains("::SYNTHESIZED::") {
            assert_eq!(n, 0, "{}", s.identifier.precise);
        } else {
            assert_eq!(n, 1, "{}", s.identifier.precise);
        }
    }
}

#[test]
fn symbols_nested_in_each_other_have_no_place() {
    let graph = SymbolGraph {
        symbols: vec![
            symbol("a", "swift.struct", &["a"], "a"),
            symbol("b", "swift.struct", &["b"], "b"),
            symbol("c", "swift.struct", &["c"], "c"),
        ],
        relationships: vec![member("a", "b"), member("b", "a")],
    };
    assert_eq!(short(&graph_to_nodes(&graph)), "public c[]");
}

#[test]
fn the_last_membership_counts() {
    let graph = SymbolGraph {
        symbols: vec![
            symbol("a", "swift.struct", &["a"], "a"),
            symbol("b", "swift.struct", &["b"], "b"),
            symbol("c", "swift.struct", &["c"], "c"),
        ],
        relationships: vec![member("c", "a"), member("c", "b")],
    };
    assert_eq!(short(&graph_to_nodes(&graph)), "public a[] public b[public c[]]");
}

#[test]
fn extension_graphs_are_grouped_by_type() {
    let graph = SymbolGraph {
        symbols: vec![
            symbol("s:1", "swift.method", &["String", "b"], "func b()"),
            symbol("s:2", "swift.method", &["Array", "a"], "func a()"),
            symbol("s:3", "swift.property", &["String", "p"], "var p"),
            symbol("s:4", "swift.struct", &["Array", "S"], "struct S"),
            symbol("s:5", "swift.property", &["Array", "S", "q"], "var q"),
            symbol("s:6", "swift.func", &[], "func free()"),
        ],
        relationships: vec![member("s:5", "s:4"), member("s:1", "s:String")],
    };
    assert_eq!(
        short(&ext_graph_to_nodes(&graph)),
        "extension Array[public struct S[public var q[]] public func a()[]] \
         extension String[public var p[] public func b()[]] public func free()[]"
    );
}

#[test]
fn kinds_have_ranks() {
    let kinds = [
        ("swift.protocol", 0),
        ("swift.class", 1),
        ("swift.actor", 2),
        ("swift.struct", 3),
        ("swift.enum", 4),
        ("swift.typealias", 5),
        ("swift.associatedtype", 6),
        ("swift.enum.case", 7),
        ("swift.init", 8),
        ("swift.property", 9),
        ("swift.var", 9),
        ("swift.type.property", 10),
        ("swift.subscript", 11),
        ("swift.method", 12),
        ("swift.type.method", 13),
        ("swift.func", 14),
        ("swift.func.op", 14),
        ("swift.macro", 100),
        ("", 100),
    ];
    for (kind, rank) in kinds {
        assert_eq!(kind_rank(kind), rank, "{}", kind);
    }
}

#[test]
fn symbols_are_sorted_by_kind_path_and_name() {
    let a = symbol("2", "swift.func", &["a"], "");
    let b = symbol("1", "swift.func", &["a"], "");
    let c = symbol("0", "swift.func", &["a", "b"], "");
    let d = symbol("9", "swift.class", &["z"], "");
    let e = symbol("9", "swift.class", &["z"], "twin");
    let mut v = vec![&c, &a, &e, &b, &d];
    sort_symbols(&mut v);
    let order: Vec<(&str, usize)> =
        v.iter().map(|s| (s.identifier.precise.as_str(), s.path_components.len())).collect();
    assert_eq!(order, [("9", 1), ("9", 1), ("1", 1), ("2", 1), ("0", 2)]);
    assert_eq!(v[0].declaration_fragments[0].spelling, "twin");
}

#[test]
fn attributes_stay_apart_from_the_declaration() {
    let mut s = symbol("s", "swift.func", &[], "");
    s.declaration_fragments = vec![
        fragment("attribute", "@A"),
        fragment("text", " "),
        fragment("keyword", "func"),
        fragment("text", " "),
        fragment("identifier", "f"),
        fragment("text", "()"),
    ];
    s.access_level = String::new();
    assert_eq!(render_declaration(&s), "@A func f()");
    s.access_level = "public".to_string();
    assert_eq!(render_declaration(&s), "@A public func f()");
    s.declaration_fragments.remove(0);
    assert_eq!(render_declaration(&s), "public func f()");
    s.access_level = String::new();
    assert_eq!(render_declaration(&s), "func f()");
    s.declaration_fragments.insert(0, fragment("attribute", "@A "));
    assert_eq!(render_declaration(&s), "@A func f()");
    s.access_level = "public".to_string();
    assert_eq!(render_declaration(&s), "@A public func f()");
}

#[test]
fn declarations_get_their_access_level() {
    let mut s = symbol("s", "swift.func", &[], "");
    s.declaration_fragments = vec![
        fragment("attribute", "@MainActor"),
        fragment("text", " "),
        fragment("keyword", "func"),
        fragment("text", " "),
        fragment("identifier", "f"),
    ];
    assert_eq!(render_declaration(&s), "@MainActor public func f");
    s.declaration_fragments = vec![
        fragment("attribute", "@A "),
        fragment("attribute", "@B"),
        fragment("keyword", "var x"),
    ];
    s.access_level = "open".to_string();
    assert_eq!(render_declaration(&s), "@A @B open var x");
    s.access_level = String::new();
    assert_eq!(render_declaration(&s), "@A @Bvar x");
    s.declaration_fragments = vec![fragment("attribute", "@Only")];
    assert_eq!(render_declaration(&s), "@Only");
    s.access_level = "public".to_string();
    assert_eq!(render_declaration(&s), "public @Only");
    s.declaration_fragments = vec![];
    assert_eq!(render_declaration(&s), "public ");
}

fn constraint(kind: &str, lhs: &str, rhs: &str) -> Constraint {
    Constraint { kind: kind.to_string(), lhs: lhs.to_string(), rhs: rhs.to_string() }
}

#[test]
fn constraints_are_sorted_texts() {
    let c = vec![
        constraint("superclass", "Self", "NSObject"),
        constraint("sameType", "Element", "Int"),
        constraint("conformance", "Element", "Hashable"),
    ];
    let expected = "Element == Int, Element: Hashable, Self superclass NSObject";
    assert_eq!(render_constraints(&c), expected);
    let turned: Vec<Constraint> = c.into_iter().rev().collect();
    assert_eq!(render_constraints(&turned), expected);
    assert_eq!(render_constraints(&vec![]), "");
}

#[test]
fn extensions_bring_their_constraints() {
    let mut s = symbol("s", "swift.method", &[], "func f()");
    s.swift_extension = Some(SwiftExtension {
        extended_module: Some("Swift".to_string()),
        constraints: vec![constraint("conformance", "T", "P")],
    });
    assert_eq!(render_declaration(&s), "public func f() where T: P");
    s.declaration_fragments = vec![fragment("keyword", "func f<U>() where U: Q")];
    assert_eq!(render_declaration(&s), "public func f<U>() where U: Q");
    s.swift_extension = Some(SwiftExtension { extended_module: None, constraints: vec![] });
    s.declaration_fragments = vec![fragment("keyword", "func g()")];
    assert_eq!(render_declaration(&s), "public func g()");
}

#[test]
fn files_have_roles() {
    assert!(is_symbols_file("M.symbols.json"));
    assert!(!is_symbols_file("M.json"));
    assert!(matches!(file_role("M.symbols.json", "M"), FileRole::Own));
    assert!(matches!(file_role("M.symbols.json.symbols.json", "M"), FileRole::Own));
    assert!(matches!(file_role("N.symbols.json", "M"), FileRole::Other));
    assert!(matches!(file_role("N@M.symbols.json", "M"), FileRole::Other));
    assert!(matches!(file_role("M", "M"), FileRole::Other));
    match file_role("M@Swift@x.symbols.json", "M") {
        FileRole::Extension(name) => assert_eq!(name, "Swift@x"),
        other => panic!("{:?}", other),
    }
}

fn file(name: &str, text: &str) -> GraphFile {
    GraphFile {
        name: name.to_string(),
        graph: SymbolGraph {
            symbols: vec![symbol("u", "swift.func", &["T", "f"], text)],
            relationships: vec![],
        },
    }
}

fn sample_files() -> Vec<GraphFile> {
    vec![
        file("M@UIKit.symbols.json", "uikit"),
        file("N.symbols.json", "n"),
        file("M@Swift.symbols.json", "first"),
        file("M.symbols.json", "m"),
        file("M@Swift.symbols.json.symbols.json", "second"),
    ]
}

#[test]
fn modules_are_made_of_their_files() {
    let m = build_module_model("M", &sample_files());
    assert_eq!(m.name, "M");
    assert_eq!(short(&m.symbols), "public m[]");
    assert_eq!(m.extensions.len(), 2);
    assert_eq!(m.extensions[0].extended_module, "Swift");
    assert_eq!(short(&m.extensions[0].symbols), "extension T[public second[]]");
    assert_eq!(m.extensions[1].extended_module, "UIKit");
    assert_eq!(short(&m.extensions[1].symbols), "extension T[public uikit[]]");
    let none = build_module_model("X", &sample_files());
    assert!(none.symbols.is_empty() && none.extensions.is_empty());
}

#[test]
fn packages_list_their_modules_by_name() {
    let targets = vec!["N".to_string(), "M".to_string(), "N".to_string()];
    let p = build_package_model("Demo", "public", &targets, &sample_files());
    assert_eq!((p.package.as_str(), p.access_level.as_str()), ("Demo", "public"));
    let names: Vec<&str> = p.modules.iter().map(|m| m.name.as_str()).collect();
    assert_eq!(names, ["M", "N", "N"]);
    assert_eq!(short(&p.modules[1].symbols), "public n[]");
}

#[test]
fn wanted_files_lie_below_symbolgraph() {
    let path = |parts: &[&str]| -> Vec<String> { parts.iter().map(|s| s.to_string()).collect() };
    let good = path(&[".build", "symbolgraph", "M.symbols.json"]);
    let bad = path(&[".build", "symbolgraphs", "M.symbols.json"]);
    assert!(is_wanted_file(Some("M.symbols.json"), &good));
    assert!(!is_wanted_file(Some("M.symbols.json"), &bad));
    assert!(!is_wanted_file(Some("M.json"), &good));
    assert!(!is_wanted_file(None, &good));
}
