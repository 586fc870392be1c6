use vouch::names::{NameMap, NameSet};
use vouch::order::{before, position};
use vouch::paths::join;
use vouch::text;

fn set(names: &[&str]) -> NameSet {
    let mut s = NameSet::new();
    for n in names {
        s.insert(n.to_string());
    }
    s
}

#[test]
fn names_are_kept_in_order() {
    let mut s = set(&["b", "a", "ä", "B", "a"]);
    assert_eq!(s.names(), &vec!["B", "a", "b", "ä"]);
    assert_eq!(s.len(), 4);
    assert!(!s.insert("a".to_string()));
    assert!(s.insert("c".to_string()));
    assert!(s.contains("c") && !s.contains("d"));
    assert!(NameSet::default().is_empty());
}

#[test]
fn sets_combine() {
    let a = set(&["x", "y"]);
    let b = set(&["y", "z"]);
    assert_eq!(a.union(&b).to_list(), vec!["x", "y", "z"]);
    assert_eq!(a.difference(&b).to_list(), vec!["x"]);
    assert_eq!(a.clone().to_list(), a.to_list());
}

#[test]
fn maps_keep_one_value_per_name() {
    let mut m: NameMap<u8> = NameMap::new();
    m.insert("b".to_string(), 1);
    m.insert("a".to_string(), 2);
    m.insert("b".to_string(), 3);
    assert_eq!(m.keys(), &vec!["a", "b"]);
    assert_eq!(m.get("b"), Some(&3));
    assert_eq!(m.remove("b"), Some(3));
    assert_eq!(m.remove("b"), None);
    assert!(m.contains_key("a") && !m.contains_key("b"));
    assert!(!m.is_empty());
}

#[test]
fn order_is_that_of_the_bytes() {
    assert!(before("a", "b") && !before("b", "a") && !before("a", "a"));
    assert!(before("a", "aa") && before("", "a") && before("z", "é"));
    let keys = vec!["b".to_string(), "d".to_string()];
    assert_eq!(position(&keys, "a"), (0, false));
    assert_eq!(position(&keys, "d"), (1, true));
    assert_eq!(position(&keys, "e"), (2, false));
}

#[test]
fn texts_are_taken_apart() {
    assert_eq!(text::trim("\t x y\u{a0}\n"), "x y");
    assert_eq!(text::lines("a\r\nb\n\nc"), vec!["a", "b", "", "c"]);
    assert!(text::lines("").is_empty());
    assert_eq!(text::replace("a$xb$x", "$x", "1"), "a1b1");
    assert!(text::contains("abc", "bc") && !text::contains("abc", "cb"));
    assert_eq!(text::decimal(1234567890), "1234567890");
    assert_eq!(text::decimal(0), "0");
    assert_eq!(text::hex(&vec![0, 255, 16]), "00ff10");
    assert_eq!(text::word("  AbC d"), Some("abc".to_string()));
}

#[test]
fn paths_are_joined() {
    assert_eq!(join("/a", "b"), "/a/b");
    assert_eq!(join("/a/", "b"), "/a/b");
    assert_eq!(join("", "b"), "b");
    assert_eq!(join("/a", "/b"), "/b");
}
