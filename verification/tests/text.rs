use swift_api_tool::order::{compare_paths, compare_text, sort, Order};
use swift_api_tool::text::{
    chars_of, contains_text, decimal, ends_with, head_line, is_whitespace, join_strings,
    join_words, lines, position, same_text, split, starts_with, string_of, trim, trim_end,
    trim_start, words, Pattern,
};
use swift_api_tool::textmap::{merged_keys, TextMap};

fn owned(parts: Vec<&[char]>) -> Vec<String> {
    parts.iter().map(|p| p.iter().collect()).collect()
}

fn sample_texts() -> Vec<&'static str> {
    vec![
        "",
        " ",
        "a",
        "a b",
        "  a\tb  ",
        "a\n",
        "a\r\n",
        "a\r",
        "\n",
        "\n\n",
        "a\nb\r\nc",
        "a\r\r\nb",
        "\u{2003}wide\u{3000}",
        "é,ü,,x",
        ",",
        "public func foo(_ x: Int)",
    ]
}

#[test]
fn white_space_is_that_of_unicode() {
    for c in '\0'..=char::MAX {
        assert_eq!(is_whitespace(c), c.is_whitespace(), "{:?}", c);
    }
}

#[test]
fn lines_words_and_trims_agree_with_std() {
    for s in sample_texts() {
        let c = chars_of(s);
        assert_eq!(owned(lines(&c)), s.lines().collect::<Vec<_>>(), "{:?}", s);
        assert_eq!(owned(words(&c)), s.split_whitespace().collect::<Vec<_>>(), "{:?}", s);
        assert_eq!(
            owned(split(&c, Pattern::Char(','))),
            s.split(',').collect::<Vec<_>>(),
            "{:?}",
            s
        );
        assert_eq!(string_of(trim(&c)), s.trim(), "{:?}", s);
        assert_eq!(string_of(trim_start(&c)), s.trim_start(), "{:?}", s);
        assert_eq!(string_of(trim_end(&c)), s.trim_end(), "{:?}", s);
        assert_eq!(string_of(head_line(&c)), s.lines().next().unwrap_or(""), "{:?}", s);
        assert_eq!(string_of(&c), s);
    }
}

#[test]
fn searches_agree_with_std() {
    for s in sample_texts() {
        let c = chars_of(s);
        for t in sample_texts() {
            let d = chars_of(t);
            assert_eq!(contains_text(s, t), s.contains(t), "{:?} {:?}", s, t);
            assert_eq!(starts_with(&c, &d), s.starts_with(t), "{:?} {:?}", s, t);
            assert_eq!(ends_with(&c, &d), s.ends_with(t), "{:?} {:?}", s, t);
            assert_eq!(same_text(s, t), s == t, "{:?} {:?}", s, t);
        }
        assert_eq!(
            position(&c, Pattern::Space),
            s.chars().position(char::is_whitespace).unwrap_or(c.len())
        );
    }
    assert_eq!(position(&chars_of("ab(c"), Pattern::NameEnd), 2);
    assert_eq!(position(&chars_of("ab{c"), Pattern::NameEnd), 2);
    assert_eq!(position(&chars_of("label: Int"), Pattern::LabelEnd), 5);
}

#[test]
fn joins() {
    let parts = vec!["a".to_string(), "".to_string(), "c".to_string()];
    assert_eq!(join_strings(&parts, ", "), "a, , c");
    assert_eq!(join_strings(&vec![], ", "), "");
    let text = chars_of("  one two\tthree ");
    assert_eq!(string_of(&join_words(&words(&text), 1)), "two three");
    assert_eq!(string_of(&join_words(&words(&text), 3)), "");
}

#[test]
fn decimal_notation() {
    for n in [0usize, 7, 9, 10, 42, 99, 100, 12345, usize::MAX] {
        assert_eq!(decimal(n), n.to_string());
    }
}

#[test]
fn texts_are_ordered_as_std_orders_them() {
    let texts = sample_texts();
    for a in &texts {
        for b in &texts {
            let o = compare_text(a, b);
            assert_eq!(matches!(o, Order::Less), a < b, "{:?} {:?}", a, b);
            assert_eq!(matches!(o, Order::Equal), a == b, "{:?} {:?}", a, b);
            assert_eq!(matches!(o, Order::Greater), a > b, "{:?} {:?}", a, b);
        }
    }
    let p = |parts: &[&str]| -> Vec<String> { parts.iter().map(|s| s.to_string()).collect() };
    assert!(matches!(compare_paths(&p(&["A"]), &p(&["A", "b"])), Order::Less));
    assert!(matches!(compare_paths(&p(&["B"]), &p(&["A", "b"])), Order::Greater));
    assert!(matches!(compare_paths(&p(&["A", "b"]), &p(&["A", "b"])), Order::Equal));
}

#[test]
fn sorting_agrees_with_std() {
    let mut v: Vec<String> = ["b", "a", "", "c", "a", "é", "Z"].iter().map(|s| s.to_string()).collect();
    let mut expected = v.clone();
    expected.sort();
    sort(&mut v);
    assert_eq!(v, expected);
}

#[test]
fn text_maps_keep_their_keys_in_order() {
    let mut m: TextMap<u32> = TextMap::new();
    m.insert("b".to_string(), 1);
    m.insert("a".to_string(), 2);
    m.insert("c".to_string(), 3);
    m.insert("b".to_string(), 4);
    assert_eq!(m.len(), 3);
    assert_eq!((m.key_at(0).as_str(), *m.value_at(0)), ("a", 2));
    assert_eq!((m.key_at(1).as_str(), *m.value_at(1)), ("b", 4));
    assert_eq!((m.key_at(2).as_str(), *m.value_at(2)), ("c", 3));
    assert_eq!(m.get("b"), Some(&4));
    assert_eq!(m.get("d"), None);
    let mut n: TextMap<Vec<u32>> = TextMap::new();
    n.append("d".to_string(), 1);
    n.append("a".to_string(), 2);
    n.append("d".to_string(), 3);
    assert_eq!(n.get("d"), Some(&vec![1, 3]));
    assert_eq!(merged_keys(&m, &n), vec!["a", "b", "c", "d"]);
}
