use swift_api_tool::command::{
    access_level_supported, exit_code, infer_format, run_diff, use_color, DiffArgs, DiffFormat,
    Format,
};
use swift_api_tool::diff::diff_packages;
use swift_api_tool::model::{ModuleModel, PackageModel, SymbolNode};
use swift_api_tool::walk::Walk;

fn package(decls: &[&str]) -> PackageModel {
    PackageModel {
        package: "P".to_string(),
        access_level: "public".to_string(),
        modules: vec![ModuleModel {
            name: "M".to_string(),
            symbols: decls
                .iter()
                .map(|d| SymbolNode { decl: d.to_string(), members: vec![] })
                .collect(),
            extensions: vec![],
        }],
    }
}

fn args(format: DiffFormat, color: bool, no_color: bool, allow_additive: bool) -> DiffArgs {
    DiffArgs { format, color, no_color, allow_additive }
}

#[test]
fn formats_follow_extensions() {
    assert_eq!(infer_format(Some("yaml")), Format::Yaml);
    assert_eq!(infer_format(Some("yml")), Format::Yaml);
    assert_eq!(infer_format(Some("html")), Format::Html);
    assert_eq!(infer_format(Some("htm")), Format::Html);
    assert_eq!(infer_format(Some("md")), Format::Md);
    assert_eq!(infer_format(Some("YAML")), Format::Md);
    assert_eq!(infer_format(Some("")), Format::Md);
    assert_eq!(infer_format(None), Format::Md);
}

#[test]
fn only_public_is_supported() {
    assert!(access_level_supported("public"));
    assert!(!access_level_supported("internal"));
    assert!(!access_level_supported(""));
}

#[test]
fn colors_are_for_terminals_unless_told_otherwise() {
    for on_terminal in [false, true] {
        let text = |color, no_color| use_color(&args(DiffFormat::Text, color, no_color, false), on_terminal);
        assert_eq!(text(false, false), on_terminal);
        assert!(text(true, false));
        assert!(!text(false, true));
        assert!(!text(true, true));
        assert!(!use_color(&args(DiffFormat::Markdown, true, false, false), on_terminal));
    }
}

#[test]
fn exit_codes() {
    let base = package(&["func a()"]);
    let more = package(&["func a()", "func b()"]);
    let same = diff_packages(&base, &base);
    let added = diff_packages(&base, &more);
    let removed = diff_packages(&more, &base);
    assert_eq!((exit_code(&same, false), exit_code(&same, true)), (0, 0));
    assert_eq!((exit_code(&added, false), exit_code(&added, true)), (1, 0));
    assert_eq!((exit_code(&removed, false), exit_code(&removed, true)), (1, 1));
}

#[test]
fn a_comparison_is_reported_and_judged() {
    let base = package(&["public func a()"]);
    let more = package(&["public func a()", "public func b()"]);
    let r = run_diff(&args(DiffFormat::Text, false, false, true), &base, &more, false);
    assert_eq!(
        r.output,
        "API differences: 1 added, 0 removed, 0 changed\n\n  Module M\n  + public func b()\n\n"
    );
    assert_eq!(r.exit_code, 0);
    let r = run_diff(&args(DiffFormat::Text, false, false, false), &base, &more, true);
    assert_eq!(
        r.output,
        "API differences: 1 added, 0 removed, 0 changed\n\n  Module M\n  \x1b[32m+\x1b[0m \x1b[32mpublic func b()\x1b[0m\n\n"
    );
    assert_eq!(r.exit_code, 1);
    let r = run_diff(&args(DiffFormat::Markdown, true, false, true), &more, &base, true);
    assert_eq!(
        r.output,
        "### API differences\n\n- **Added:** 0\n- **Removed:** 1\n- **Changed:** 0\n\n#### Module `M`\n\n- ➖ `public func b()`\n\n"
    );
    assert_eq!(r.exit_code, 1);
    let r = run_diff(&args(DiffFormat::Text, true, false, false), &base, &base, false);
    assert_eq!((r.output.as_str(), r.exit_code), ("No API differences.\n", 0));
}

#[test]
fn walks_read_the_last_directory_first() {
    let mut w = Walk::new("/");
    assert_eq!(w.next_directory(), Some("/"));
    w.visit("/a", true);
    w.visit("/f", false);
    w.visit("/b", true);
    assert_eq!(w.next_directory(), Some("/b"));
    w.visit("/b/g", false);
    assert_eq!(w.next_directory(), Some("/a"));
    assert_eq!(w.next_directory(), None);
    assert_eq!(w.into_found(), ["/f", "/b/g"]);
}
