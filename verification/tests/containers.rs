use schema_ir::namemap::NameMap;
use schema_ir::namemap::NameSet;
use schema_ir::valid::merge;
use schema_ir::valid::Valid;
use schema_ir::valid::ValidationError;

#[test]
fn name_map_keeps_keys_sorted_whatever_the_insertion_order() {
    let mut m: NameMap<u32> = NameMap::new();
    m.insert("pear".to_string(), 3);
    m.insert("apple".to_string(), 1);
    m.insert("quince".to_string(), 4);
    assert_eq!(m.len(), 3);
    assert_eq!(m.key_at(0).as_str(), "apple");
    assert_eq!(m.key_at(1).as_str(), "pear");
    assert_eq!(m.key_at(2).as_str(), "quince");
    assert_eq!(m.get("pear"), Some(&3));
    assert_eq!(m.get("plum"), None);
}

#[test]
fn name_map_insert_replaces_an_existing_key() {
    let mut m: NameMap<u32> = NameMap::new();
    m.insert("key".to_string(), 1);
    m.insert("key".to_string(), 2);
    assert_eq!(m.len(), 1);
    assert_eq!(m.get("key"), Some(&2));
}

#[test]
fn name_set_is_sorted_and_deduplicated() {
    let mut s = NameSet::new();
    s.insert("b".to_string());
    s.insert("a".to_string());
    s.insert("b".to_string());
    assert_eq!(s.len(), 2);
    assert_eq!(s.name_at(0).as_str(), "a");
    assert_eq!(s.name_at(1).as_str(), "b");
    assert!(s.contains("a"));
    assert!(!s.contains("c"));
}

#[test]
fn merge_accumulates_failures_from_both_sides() {
    let a: Valid<u32> = Err(ValidationError::single("first".to_string()));
    let b: Valid<u32> = Err(ValidationError::single("second".to_string()));
    let e = merge(a, b).err().expect("two failures stay a failure");
    assert_eq!(e.len(), 2);
    assert_eq!(e.cause_at(0).message, "first");
    assert_eq!(e.cause_at(1).message, "second");
}

#[test]
fn merge_keeps_both_successes() {
    let a: Valid<u32> = Ok(1);
    let b: Valid<&str> = Ok("two");
    match merge(a, b) {
        Ok((x, y)) => {
            assert_eq!(x, 1);
            assert_eq!(y, "two");
        }
        Err(_) => panic!("two successes pair up"),
    }
}

#[test]
fn trace_prepends_a_label_to_every_path() {
    let e = ValidationError::single("boom".to_string());
    let e = e.trace("inner");
    let e = e.trace("outer");
    assert_eq!(e.len(), 1);
    assert_eq!(e.cause_at(0).path, vec!["outer".to_string(), "inner".to_string()]);
    assert_eq!(e.cause_at(0).message, "boom");
}
