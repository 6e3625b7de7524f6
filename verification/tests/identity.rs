use swift_api_tool::identity::{identity_key, strip_access_prefix};

fn stripped(line: &str) -> String {
    let chars: Vec<char> = line.chars().collect();
    strip_access_prefix(&chars).iter().collect()
}

#[test]
fn identity_is_the_first_line_behind_the_attributes() {
    assert_eq!(identity_key("public   func \t foo()"), "func foo()");
    assert_eq!(identity_key("\n  @MainActor\r\n\n  open class Foo  \nwhere T: X"), "class Foo");
    assert_eq!(identity_key("  package\tvar x: Int { get }"), "var x: Int { get }");
    assert_eq!(identity_key("@Sendable public func foo()"), "func foo()");
    assert_eq!(identity_key("@A @B(c)\n@D  open func foo()"), "func foo()");
    assert_eq!(
        identity_key("@available(iOS 13,\n  macOS 12) public func foo(_ x: @escaping () -> Void)"),
        "func foo(_ x: @escaping () -> Void)"
    );
    assert_eq!(
        identity_key("@available(*, deprecated, message: \"use bar(\\\"x\\\") :)\") func foo()"),
        "func foo()"
    );
    assert_eq!(identity_key("@A(b(c)d)func foo()"), "func foo()");
}

#[test]
fn identity_without_such_a_line_is_the_whole_declaration() {
    assert_eq!(identity_key("@MainActor"), "@MainActor");
    assert_eq!(identity_key(" @A \n @B "), "@A @B");
    assert_eq!(identity_key("@A(b func foo"), "@A(b func foo");
    assert_eq!(identity_key(""), "");
    assert_eq!(identity_key(" \n "), "");
}

#[test]
fn access_prefix_needs_white_space_after_it() {
    assert_eq!(stripped("public func"), "func");
    assert_eq!(stripped("open\t\tclass"), "class");
    assert_eq!(stripped("package  actor A"), "actor A");
    assert_eq!(stripped("publicly"), "publicly");
    assert_eq!(stripped("public"), "public");
    assert_eq!(stripped("internal func"), "internal func");
    assert_eq!(stripped("public open func"), "open func");
}

#[test]
fn identities_are_evenly_spaced() {
    for decl in ["  public  a\t\tb  ", "@A\n x \u{3000} y ", "a", "open\u{2003}z  z"] {
        let key = identity_key(decl);
        assert_eq!(key, key.split_whitespace().collect::<Vec<_>>().join(" "));
    }
}

#[test]
fn white_space_does_not_matter() {
    assert_eq!(identity_key("public\tfunc  a( )"), identity_key(" public func a( )  "));
}

#[test]
fn access_level_does_not_matter() {
    let plain = identity_key("func foo() -> Int");
    for level in ["public", "open", "package"] {
        for space in [" ", "\t ", "\u{A0}"] {
            assert_eq!(identity_key(&format!("{}{}func foo() -> Int", level, space)), plain);
        }
    }
}

#[test]
fn attributes_do_not_matter() {
    let plain = identity_key("open func foo()\n// more");
    for attribute in ["@A", "@A(b)", "@A(b, \"(\")", "@a.b<c>(d(e))", "@A @B"] {
        for space in [" ", "\n", "\r\n\t", "\n\n"] {
            let decl = format!("{}{}public func foo()\n// more", attribute, space);
            assert_eq!(identity_key(&decl), plain, "{}", decl);
        }
    }
    assert_eq!(identity_key("\t\nfunc foo()\n// more"), plain);
}

#[test]
fn attribute_lines_do_not_matter() {
    for prefix in [
        "",
        "@A",
        " \t\n  @A @B(c)\r",
        "@Foo(#\"a\"b\"#)",
        "@Foo(##\"a)\"#b\"##)",
        "@Foo(#)#",
        "@A(",
        "@A(\"",
        "@A\n@B(c",
        "@MainActor // main",
        "@MainActor // (main",
        "@A @B /* c */",
        "@available (iOS 13, *)",
        "@A\n\n@B 1\n",
    ] {
        for rest in ["", "\n", "\nmore", "\n  where T: X\n@C"] {
            for line in ["public func x()", "  func  x()\t"] {
                let decl = format!("{}\n{}{}", prefix, line, rest);
                assert_eq!(identity_key(&decl), "func x()", "{:?}", decl);
            }
        }
    }
    assert_eq!(identity_key("@A\n(b)\nfunc x()"), "(b)");
}

#[test]
fn raw_string_literals_do_not_close_a_list() {
    assert_eq!(identity_key("@Foo(#\"a\"b\"#) public func x()"), "func x()");
    assert_eq!(identity_key("@Foo(#\"\\\"#) public func x()"), "func x()");
    assert_eq!(identity_key("@Foo(##\")\"#)\"##)public func x()"), "func x()");
    assert_eq!(identity_key("@Foo(# a, \"\") public func x()"), "func x()");
}

#[test]
fn a_declaration_behind_attributes_starts_with_a_name() {
    assert_eq!(identity_key("@A _x\nfunc y()"), "_x");
    assert_eq!(identity_key("@A `init`\nfunc y()"), "`init`");
    assert_eq!(identity_key("@A \u{E9}tat\nfunc y()"), "\u{E9}tat");
    assert_eq!(identity_key("@A Z\nfunc y()"), "Z");
    assert_eq!(identity_key("@A 1\nfunc y()"), "func y()");
}

#[test]
fn access_levels_behind_attributes_do_not_matter() {
    assert_eq!(identity_key("@A public func f()"), identity_key("@A open func f()"));
}

#[test]
fn appended_words_are_kept() {
    assert_eq!(identity_key("open func foo() async  throws"), "func foo() async throws");
    assert_ne!(identity_key("func foo()"), identity_key("func foo() async  throws"));
}
