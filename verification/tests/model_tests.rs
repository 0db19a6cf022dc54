//! Tests for the derivation model and the string ordering helpers.

use npingler::derivation::Derivation;
use npingler::derivation::Derivations;
use npingler::derivation::Dict;
use npingler::order::str_eq;
use npingler::order::str_lt;
use npingler::order::str_vec_eq;

#[test]
fn str_lt_is_lexicographic() {
    assert!(str_lt("a", "b"));
    assert!(str_lt("a", "ab"));
    assert!(str_lt("", "a"));
    assert!(!str_lt("b", "a"));
    assert!(!str_lt("a", "a"));
    assert!(str_lt("abc", "abd"));
}

#[test]
fn str_eq_compares_contents() {
    assert!(str_eq("", ""));
    assert!(str_eq("abc", "abc"));
    assert!(!str_eq("abc", "abd"));
    assert!(!str_eq("abc", "abcd"));
}

#[test]
fn str_vec_eq_compares_elementwise() {
    let a: Vec<String> = vec!["x".to_string(), "y".to_string()];
    let b: Vec<String> = vec!["x".to_string(), "y".to_string()];
    let c: Vec<String> = vec!["x".to_string()];
    let d: Vec<String> = vec!["x".to_string(), "z".to_string()];
    assert!(str_vec_eq(&a, &b));
    assert!(!str_vec_eq(&a, &c));
    assert!(!str_vec_eq(&a, &d));
}

#[test]
fn dict_keeps_entries_sorted_and_unique() {
    let mut d: Dict<String> = Dict::new();
    assert!(d.insert("b".to_string(), "2".to_string()));
    assert!(d.insert("a".to_string(), "1".to_string()));
    assert!(d.insert("c".to_string(), "3".to_string()));
    assert!(!d.insert("b".to_string(), "again".to_string()));
    let keys: Vec<&str> = d.entries.iter().map(|e| e.0.as_str()).collect();
    assert_eq!(keys, vec!["a", "b", "c"]);
    assert_eq!(d.get("b"), Some(&"2".to_string()));
    assert_eq!(d.get("missing"), None);
    assert_eq!(d.len(), 3);
}

fn tiny(path: &str) -> Derivation {
    Derivation {
        path: path.to_string(),
        args: Vec::new(),
        builder: "/bin/sh".to_string(),
        env: Dict::new(),
        input_drvs: Dict::new(),
        input_srcs: Vec::new(),
        name: "tiny".to_string(),
        outputs: Dict::new(),
        system: "x86_64-linux".to_string(),
    }
}

#[test]
fn derivations_insert_and_get_by_path() {
    let mut r = Derivations::new();
    assert!(r.insert(tiny("P1")));
    assert!(r.insert(tiny("P2")));
    assert!(!r.insert(tiny("P1")));
    assert_eq!(r.get("P1").unwrap().path, "P1");
    assert_eq!(r.get("P2").unwrap().path, "P2");
    assert!(r.get("P3").is_none());
}
