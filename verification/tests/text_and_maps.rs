use rustique::keyed::ModMap;
use rustique::package::{find_pin, find_pin_ignoring_case, Package};
use rustique::text::{decimal_text, ends_with, join, same_text};

fn package(mod_id: &str, pin: Option<&str>) -> Package {
    Package { mod_id: mod_id.to_string(), pinned_version: pin.map(|p| p.to_string()) }
}

#[test]
fn texts_are_joined() {
    let texts: Vec<String> = ["a", "b", "c"].iter().map(|s| s.to_string()).collect();
    assert_eq!(join(&texts, "], ["), "a], [b], [c");
    assert_eq!(join(&Vec::new(), ", "), "");
}

#[test]
fn numbers_are_written_in_decimal() {
    assert_eq!(decimal_text(0), "0");
    assert_eq!(decimal_text(1907), "1907");
    assert_eq!(decimal_text(u64::MAX), "18446744073709551615");
}

#[test]
fn endings_are_told() {
    assert!(ends_with("mod.zip", ".zip"));
    assert!(!ends_with("mod.zip.part", ".zip"));
    assert!(!ends_with("zip", ".zip"));
    assert!(ends_with("größe.zip", "e.zip"));
    assert!(same_text("a", "a"));
    assert!(!same_text("a", "A"));
}

#[test]
fn maps_are_walked_in_the_order_of_texts() {
    let mut map: ModMap<String> = ModMap::new();
    assert!(map.is_empty());
    assert!(map.names_if_any().is_none());
    for name in ["b", "a", "é", "ab", "Z", ""] {
        map.insert(name.to_string(), format!("<{name}>"));
    }
    assert_eq!(map.names(), ["", "Z", "a", "ab", "b", "é"]);
    map.insert("a".to_string(), "other".to_string());
    assert_eq!(map.len(), 6);
    assert_eq!(map.get("a").unwrap(), "other");
    assert_eq!(map.names_if_any().unwrap().len(), 6);
    assert_eq!(map.remove("Z").unwrap(), "<Z>");
    assert!(map.remove("Z").is_none());
    assert!(!map.contains_key("Z"));
    assert_eq!(map.len(), 5);
}

#[test]
fn pins_are_found_by_the_first_package() {
    let packages =
        vec![package("Alpha", Some("1")), package("alpha", Some("2")), package("beta", None)];
    assert_eq!(find_pin_ignoring_case(&packages, "ALPHA"), Some("1".to_string()));
    assert_eq!(find_pin(&packages, "alpha"), Some("2".to_string()));
    assert_eq!(find_pin(&packages, "ALPHA"), None);
    assert_eq!(find_pin(&packages, "beta"), None);
    // only ASCII letters are compared without their case
    assert_eq!(find_pin_ignoring_case(&[package("É", Some("3"))].to_vec(), "é"), None);
}
