use record_layout::names::{holds_name, NameSet};
use record_layout::text::{is_before, push_decimal};

fn listed(set: &NameSet) -> Vec<String> {
    (0..set.len()).map(|i| set.get(i).clone()).collect()
}

#[test]
fn names_compare_byte_by_byte() {
    assert!(is_before("a", "b"));
    assert!(!is_before("b", "a"));
    assert!(!is_before("a", "a"));
    assert!(is_before("", "a"));
    assert!(!is_before("a", ""));
    assert!(!is_before("", ""));
    assert!(is_before("ab", "abc"));
    assert!(!is_before("abc", "ab"));
    assert!(is_before("Z", "a"));
    assert!(is_before("abd", "b"));
}

#[test]
fn names_compare_as_str_does() {
    let samples = ["", "a", "ab", "b", "B", "z", "é", "zé", "日本", "_x", "struct A", "struct B"];
    for a in samples.iter() {
        for b in samples.iter() {
            assert_eq!(is_before(a, b), a < b, "{:?} against {:?}", a, b);
        }
    }
}

#[test]
fn a_name_set_is_ascending_and_holds_no_name_twice() {
    let mut set = NameSet::new();
    assert!(set.is_empty());
    assert_eq!(set.len(), 0);
    assert!(set.insert("pear".to_string()));
    assert!(set.insert("apple".to_string()));
    assert!(set.insert("quince".to_string()));
    assert!(!set.insert("pear".to_string()));
    assert!(set.insert("fig".to_string()));
    assert!(!set.is_empty());
    assert_eq!(set.len(), 4);
    assert_eq!(listed(&set), vec!["apple", "fig", "pear", "quince"]);
    assert!(set.contains(&"fig".to_string()));
    assert!(!set.contains(&"plum".to_string()));
}

#[test]
fn a_name_goes_in_front_or_behind_where_it_belongs() {
    let mut set = NameSet::new();
    set.insert("m".to_string());
    set.insert("a".to_string());
    set.insert("z".to_string());
    assert_eq!(listed(&set), vec!["a", "m", "z"]);
    let mut same = NameSet::new();
    same.insert("z".to_string());
    same.insert("m".to_string());
    same.insert("a".to_string());
    assert_eq!(set, same);
}

#[test]
fn holds_name_looks_at_every_string() {
    let list = vec!["x".to_string(), "y".to_string()];
    assert!(holds_name(&list, &"x".to_string()));
    assert!(holds_name(&list, &"y".to_string()));
    assert!(!holds_name(&list, &"z".to_string()));
    assert!(!holds_name(&vec![], &"x".to_string()));
}

#[test]
fn numbers_are_written_in_decimal() {
    for (n, text) in [
        (0usize, "0"),
        (7, "7"),
        (9, "9"),
        (10, "10"),
        (32, "32"),
        (100, "100"),
        (109, "109"),
        (65535, "65535"),
        (1234567890, "1234567890"),
    ] {
        let mut out = String::new();
        push_decimal(&mut out, n);
        assert_eq!(out, text);
    }
    let mut out = "size ".to_string();
    push_decimal(&mut out, usize::MAX);
    assert_eq!(out, format!("size {}", usize::MAX));
}
