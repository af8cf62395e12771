use vectordb_rust::vector::{Metadata, MetadataValue, VectorEntry};

fn text(s: &str) -> MetadataValue {
    MetadataValue::String(s.to_string())
}

fn number(x: f64) -> MetadataValue {
    MetadataValue::Float(x.to_bits())
}

#[test]
fn values_are_equal_by_tag_and_payload() {
    assert_eq!(text("a"), text("a"));
    assert_ne!(text("a"), text("b"));
    assert_eq!(MetadataValue::Int(3), MetadataValue::Int(3));
    assert_ne!(MetadataValue::Int(3), MetadataValue::Int(4));
    assert_eq!(MetadataValue::Bool(true), MetadataValue::Bool(true));
    assert_ne!(MetadataValue::Bool(true), MetadataValue::Bool(false));
    assert_ne!(MetadataValue::Int(1), MetadataValue::Bool(true));
    assert_ne!(MetadataValue::Int(1), number(1.0));
    assert_ne!(text("1"), MetadataValue::Int(1));
}

#[test]
fn numbers_held_as_bits_compare_as_numbers() {
    let values = [0.0, -0.0, 1.5, -1.5, 1e300, f64::INFINITY, f64::NEG_INFINITY, f64::NAN, f64::MIN_POSITIVE];
    for a in values {
        for b in values {
            assert_eq!(number(a) == number(b), a == b);
        }
    }
    assert_ne!(MetadataValue::Float(0x7ff8_0000_0000_0001), MetadataValue::Float(0x7ff8_0000_0000_0001));
    assert_ne!(MetadataValue::Float(0xfff0_0000_0000_0001), MetadataValue::Float(0xfff0_0000_0000_0001));
}

#[test]
fn clones_are_equal() {
    for v in [text("a"), MetadataValue::Int(-2), number(2.5), MetadataValue::Bool(false)] {
        assert_eq!(v.clone(), v);
    }
}

#[test]
fn metadata_binds_each_key_once() {
    let mut m = Metadata::new();
    assert_eq!(m.len(), 0);
    assert_eq!(m.get("a"), None);
    m.insert("a".to_string(), MetadataValue::Int(1));
    m.insert("b".to_string(), text("x"));
    m.insert("a".to_string(), MetadataValue::Int(2));
    assert_eq!(m.len(), 2);
    assert_eq!(m.get("a"), Some(&MetadataValue::Int(2)));
    assert_eq!(m.get("b"), Some(&text("x")));
    assert_eq!(m.get("c"), None);
    let keys: Vec<&str> = m.entries().iter().map(|(k, _)| k.as_str()).collect();
    assert_eq!(keys, vec!["a", "b"]);
}

#[test]
fn merge_prefers_the_incoming_values() {
    let mut left = Metadata::from_pairs(vec![
        ("a".to_string(), MetadataValue::Int(1)),
        ("b".to_string(), MetadataValue::Int(2)),
    ]);
    let right = Metadata::from_pairs(vec![
        ("b".to_string(), MetadataValue::Int(20)),
        ("c".to_string(), MetadataValue::Int(30)),
        ("c".to_string(), MetadataValue::Int(31)),
    ]);
    assert_eq!(right.len(), 2);
    left.merge(&right);
    assert_eq!(left.len(), 3);
    assert_eq!(left.get("a"), Some(&MetadataValue::Int(1)));
    assert_eq!(left.get("b"), Some(&MetadataValue::Int(20)));
    assert_eq!(left.get("c"), Some(&MetadataValue::Int(31)));
    let copy = left.clone();
    assert_eq!(copy.len(), 3);
    assert_eq!(copy.get("b"), Some(&MetadataValue::Int(20)));
}

#[test]
fn entries_know_their_dimension() {
    let e = VectorEntry::new("x".to_string(), vec![1, 2, 3], Metadata::new());
    assert_eq!(e.id, "x");
    assert_eq!(e.dimension(), 3);
    let copy = e.clone();
    assert_eq!(copy.id, "x");
    assert_eq!(copy.embedding, vec![1, 2, 3]);
    assert_eq!(copy.metadata.len(), 0);
}

#[test]
fn values_come_from_plain_ones() {
    assert_eq!(MetadataValue::from("a".to_string()), text("a"));
    assert_eq!(MetadataValue::from(5i64), MetadataValue::Int(5));
    assert_eq!(MetadataValue::from(true), MetadataValue::Bool(true));
    let m = Metadata::from_pairs(vec![("k".to_string(), 7i64.into())]);
    assert_eq!(m.lookup(&"k".to_string()), Some(&MetadataValue::Int(7)));
    assert_eq!(m.lookup(&"z".to_string()), None);
}
