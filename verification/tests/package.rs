use swift_api_tool::package::{
    library_target_names, select_targets, PackageDescription, ProductDescription, TargetDescription,
};

fn json(text: &str) -> serde_json::Value {
    serde_json::from_str(text).expect("valid JSON")
}

fn product(name: &str, kind: &str, targets: &[&str]) -> ProductDescription {
    ProductDescription {
        name: name.to_string(),
        kind: json(kind),
        targets: targets.iter().map(|s| s.to_string()).collect(),
    }
}

fn target(name: &str, kind: &str, module_type: Option<&str>) -> TargetDescription {
    TargetDescription {
        name: name.to_string(),
        kind: kind.to_string(),
        module_type: module_type.map(|s| s.to_string()),
    }
}

#[test]
fn libraries_are_objects_with_a_library_key() {
    assert!(product("a", "{\"library\": [\"automatic\"]}", &[]).is_library());
    assert!(product("a", "{\"x\": 1, \"library\": null}", &[]).is_library());
    assert!(!product("a", "{\"executable\": null}", &[]).is_library());
    assert!(!product("a", "{}", &[]).is_library());
    assert!(!product("a", "\"library\"", &[]).is_library());
    assert!(!product("a", "[\"library\"]", &[]).is_library());
    assert!(!product("a", "null", &[]).is_library());
}

fn sample() -> PackageDescription {
    PackageDescription {
        name: "P".to_string(),
        targets: vec![
            target("Z", "library", Some("SwiftTarget")),
            target("Hidden", "library", Some("SwiftTarget")),
            target("A", "library", None),
            target("C", "library", Some("ClangTarget")),
            target("Tool", "executable", Some("SwiftTarget")),
            target("Z", "library", None),
        ],
        products: vec![
            product("tool", "{\"executable\": null}", &["Tool", "Hidden"]),
            product("lib", "{\"library\": [\"automatic\"]}", &["A", "C", "Tool"]),
            product("more", "{\"library\": [\"static\"]}", &["Z", "A"]),
        ],
    }
}

#[test]
fn documented_targets_are_exposed_swift_libraries() {
    assert_eq!(library_target_names(&sample()), ["Z", "A", "Z"]);
}

#[test]
fn targets_are_selected_by_name_kind_and_language() {
    let all = sample().targets;
    assert_eq!(select_targets(&all, &vec!["Hidden".to_string(), "C".to_string()]), ["Hidden"]);
    assert!(select_targets(&all, &vec![]).is_empty());
}
