use vectordb_rust::filter::{matches_filter, FilterOperator, FilterValue, WhereFilter};
use vectordb_rust::vector::{Metadata, MetadataValue};

fn text(s: &str) -> MetadataValue {
    MetadataValue::String(s.to_string())
}

fn status_active() -> Metadata {
    let mut metadata = Metadata::new();
    metadata.insert("status".to_string(), text("active"));
    metadata
}

#[test]
fn test_direct_match() {
    let metadata = status_active();

    let mut filter: WhereFilter = Vec::new();
    filter.push(("status".to_string(), FilterValue::Direct(text("active"))));

    assert!(matches_filter(&metadata, &filter));
}

#[test]
fn test_ne_operator() {
    let metadata = status_active();

    let mut filter: WhereFilter = Vec::new();
    filter.push((
        "status".to_string(),
        FilterValue::Operator(FilterOperator {
            ne: Some(text("inactive")),
            in_values: None,
            nin: None,
        }),
    ));

    assert!(matches_filter(&metadata, &filter));
}

fn op(
    ne: Option<MetadataValue>,
    in_values: Option<Vec<MetadataValue>>,
    nin: Option<Vec<MetadataValue>>,
) -> FilterValue {
    FilterValue::Operator(FilterOperator { ne, in_values, nin })
}

fn sample() -> Metadata {
    let mut m = Metadata::new();
    m.insert("status".to_string(), text("active"));
    m.insert("n".to_string(), MetadataValue::Int(3));
    m.insert("ok".to_string(), MetadataValue::Bool(true));
    m.insert("x".to_string(), MetadataValue::Float(1.5f64.to_bits()));
    m
}

fn accepts(filter: Vec<(&str, FilterValue)>) -> bool {
    let filter: WhereFilter = filter.into_iter().map(|(k, v)| (k.to_string(), v)).collect();
    matches_filter(&sample(), &filter)
}

#[test]
fn the_empty_filter_accepts_everything() {
    assert!(accepts(vec![]));
    assert!(matches_filter(&Metadata::new(), &Vec::new()));
}

#[test]
fn direct_clauses_ask_for_equality() {
    assert!(accepts(vec![("n", FilterValue::Direct(MetadataValue::Int(3)))]));
    assert!(!accepts(vec![("n", FilterValue::Direct(MetadataValue::Int(4)))]));
    assert!(!accepts(vec![("n", FilterValue::Direct(text("3")))]));
    assert!(!accepts(vec![("absent", FilterValue::Direct(MetadataValue::Int(3)))]));
    assert!(accepts(vec![("x", FilterValue::Direct(MetadataValue::Float(1.5f64.to_bits())))]));
    assert!(!accepts(vec![("x", FilterValue::Direct(MetadataValue::Float(f64::NAN.to_bits())))]));
}

#[test]
fn clauses_combine_conjunctively() {
    assert!(accepts(vec![
        ("n", FilterValue::Direct(MetadataValue::Int(3))),
        ("ok", FilterValue::Direct(MetadataValue::Bool(true))),
    ]));
    assert!(!accepts(vec![
        ("n", FilterValue::Direct(MetadataValue::Int(3))),
        ("ok", FilterValue::Direct(MetadataValue::Bool(false))),
    ]));
    assert!(!accepts(vec![
        ("n", FilterValue::Direct(MetadataValue::Int(3))),
        ("n", FilterValue::Direct(MetadataValue::Int(4))),
    ]));
}

#[test]
fn ne_needs_a_present_and_different_value() {
    assert!(accepts(vec![("status", op(Some(text("inactive")), None, None))]));
    assert!(!accepts(vec![("status", op(Some(text("active")), None, None))]));
    assert!(!accepts(vec![("absent", op(Some(text("active")), None, None))]));
    assert!(accepts(vec![("status", op(Some(MetadataValue::Int(1)), None, None))]));
}

#[test]
fn in_needs_a_present_value_of_the_list() {
    assert!(accepts(vec![("n", op(None, Some(vec![MetadataValue::Int(1), MetadataValue::Int(3)]), None))]));
    assert!(!accepts(vec![("n", op(None, Some(vec![MetadataValue::Int(1)]), None))]));
    assert!(!accepts(vec![("n", op(None, Some(vec![]), None))]));
    assert!(!accepts(vec![("absent", op(None, Some(vec![MetadataValue::Int(3)]), None))]));
}

#[test]
fn nin_accepts_absent_fields() {
    assert!(accepts(vec![("n", op(None, None, Some(vec![MetadataValue::Int(1)])))]));
    assert!(!accepts(vec![("n", op(None, None, Some(vec![MetadataValue::Int(1), MetadataValue::Int(3)])))]));
    assert!(accepts(vec![("absent", op(None, None, Some(vec![MetadataValue::Int(3)])))]));
    assert!(accepts(vec![("n", op(None, None, Some(vec![])))]));
}

#[test]
fn operators_of_one_clause_all_apply() {
    let three = || MetadataValue::Int(3);
    assert!(!accepts(vec![("n", op(Some(MetadataValue::Int(1)), Some(vec![MetadataValue::Int(4)]), None))]));
    assert!(!accepts(vec![("n", op(Some(MetadataValue::Int(1)), None, Some(vec![three()])))]));
    assert!(!accepts(vec![("n", op(None, Some(vec![three()]), Some(vec![three()])))]));
    assert!(accepts(vec![("n", op(Some(MetadataValue::Int(1)), Some(vec![three()]), Some(vec![MetadataValue::Int(9)])))]));
    assert!(accepts(vec![("n", op(None, None, None))]));
    assert!(accepts(vec![("absent", op(None, None, None))]));
}

#[test]
fn agrees_with_a_plain_evaluator() {
    fn reference(m: &Metadata, filter: &WhereFilter) -> bool {
        filter.iter().all(|(key, clause)| {
            let found = m.get(key);
            match clause {
                FilterValue::Direct(v) => found == Some(v),
                FilterValue::Operator(o) => {
                    let ne = match &o.ne {
                        Some(v) => found.map_or(false, |x| x != v),
                        None => true,
                    };
                    let within = match &o.in_values {
                        Some(vs) => found.map_or(false, |x| vs.iter().any(|v| v == x)),
                        None => true,
                    };
                    let without = match &o.nin {
                        Some(vs) => found.map_or(true, |x| !vs.iter().any(|v| v == x)),
                        None => true,
                    };
                    ne && within && without
                }
            }
        })
    }
    let mut state: u64 = 3;
    let mut next = move |n: u64| {
        state = state.wrapping_mul(6364136223846793005).wrapping_add(1442695040888963407);
        (state >> 33) % n
    };
    let keys = ["a", "b", "c"];
    for _ in 0..2000 {
        let mut value = |next: &mut dyn FnMut(u64) -> u64| match next(4) {
            0 => text(["p", "q"][next(2) as usize]),
            1 => MetadataValue::Int(next(3) as i64),
            2 => MetadataValue::Bool(next(2) == 0),
            _ => MetadataValue::Float([0.0f64, -0.0, 1.0, f64::NAN][next(4) as usize].to_bits()),
        };
        let mut m = Metadata::new();
        for k in keys {
            if next(2) == 0 {
                m.insert(k.to_string(), value(&mut next));
            }
        }
        let mut filter: WhereFilter = Vec::new();
        for _ in 0..next(3) {
            let key = keys[next(3) as usize].to_string();
            let clause = if next(2) == 0 {
                FilterValue::Direct(value(&mut next))
            } else {
                let ne = if next(2) == 0 { Some(value(&mut next)) } else { None };
                let in_values = if next(2) == 0 {
                    Some((0..next(3)).map(|_| value(&mut next)).collect())
                } else {
                    None
                };
                let nin = if next(2) == 0 {
                    Some((0..next(3)).map(|_| value(&mut next)).collect())
                } else {
                    None
                };
                FilterValue::Operator(FilterOperator { ne, in_values, nin })
            };
            filter.push((key, clause));
        }
        assert_eq!(matches_filter(&m, &filter), reference(&m, &filter));
    }
}
