use vectordb_rust::client::VectorDbClient;
use vectordb_rust::collection::Collection;
use vectordb_rust::error::VectorDbError;

fn load(client: &mut VectorDbClient, name: &str, now: u64) -> Option<String> {
    if client.get_collection(name, now) {
        None
    } else {
        client.insert(name.to_string(), Collection::new(name.to_string(), 3), now)
    }
}

#[test]
fn least_recently_used_collection_leaves() {
    let mut client = VectorDbClient::new(Some(2));
    assert_eq!(client.max_cached(), 2);
    assert_eq!(load(&mut client, "X", 1), None);
    assert_eq!(load(&mut client, "Y", 2), None);
    assert_eq!(load(&mut client, "Z", 3), Some("X".to_string()));
    assert!(!client.contains("X"));
    assert!(client.contains("Y"));
    assert!(client.contains("Z"));
    assert_eq!(client.resident_count(), 2);
    assert_eq!(client.resident_names(), vec!["Y".to_string(), "Z".to_string()]);
}

#[test]
fn use_keeps_a_collection_resident() {
    let mut client = VectorDbClient::new(Some(2));
    load(&mut client, "X", 1);
    load(&mut client, "Y", 2);
    assert!(client.get_collection("X", 5));
    assert_eq!(load(&mut client, "Z", 6), Some("Y".to_string()));
    assert_eq!(client.resident_names(), vec!["X".to_string(), "Z".to_string()]);
    // Among equally old ones the first leaves.
    let mut ties = VectorDbClient::new(Some(3));
    load(&mut ties, "A", 7);
    load(&mut ties, "B", 7);
    load(&mut ties, "C", 7);
    assert_eq!(load(&mut ties, "D", 7), Some("A".to_string()));
    assert_eq!(load(&mut ties, "E", 8), Some("B".to_string()));
}

#[test]
fn the_default_keeps_twenty() {
    let mut client = VectorDbClient::new(None);
    assert_eq!(client.max_cached(), 20);
    for i in 0..20 {
        assert_eq!(load(&mut client, &format!("c{}", i), i), None);
    }
    assert_eq!(client.resident_count(), 20);
    assert_eq!(load(&mut client, "more", 100), Some("c0".to_string()));
    assert_eq!(client.resident_count(), 20);
}

#[test]
fn a_client_that_keeps_none_holds_one() {
    let mut client = VectorDbClient::new(Some(0));
    assert_eq!(load(&mut client, "X", 1), None);
    assert_eq!(client.resident_count(), 1);
    assert_eq!(load(&mut client, "Y", 2), Some("X".to_string()));
    assert_eq!(client.resident_names(), vec!["Y".to_string()]);
    assert_eq!(client.evict_lru(), Some("Y".to_string()));
    assert_eq!(client.evict_lru(), None);
}

#[test]
fn eviction_makes_room_only_when_full() {
    let mut client = VectorDbClient::new(Some(3));
    load(&mut client, "X", 9);
    load(&mut client, "Y", 4);
    assert_eq!(client.evict_lru(), None);
    load(&mut client, "Z", 6);
    assert_eq!(client.evict_lru(), Some("Y".to_string()));
    assert_eq!(client.resident_names(), vec!["X".to_string(), "Z".to_string()]);
}

#[test]
fn names_are_taken_once() {
    let mut client = VectorDbClient::new(Some(4));
    let made = client.create_collection("docs".to_string(), 3, false).unwrap();
    assert_eq!(made.config().name, "docs");
    assert_eq!(made.config().dimension, 3);
    assert!(!made.config().use_ivf);
    assert_eq!(client.insert("docs".to_string(), made, 1), None);
    match client.create_collection("docs".to_string(), 3, false) {
        Err(VectorDbError::CollectionAlreadyExists(name)) => assert_eq!(name, "docs"),
        _ => panic!("a resident name was taken again"),
    }
    match client.create_collection_with_ivf("kept".to_string(), 3, 8, true) {
        Err(VectorDbError::CollectionAlreadyExists(name)) => assert_eq!(name, "kept"),
        _ => panic!("a persisted name was taken again"),
    }
    let indexed = client.create_collection_with_ivf("fast".to_string(), 3, 8, false).unwrap();
    assert!(indexed.config().use_ivf);
    assert_eq!(indexed.config().n_clusters, 8);
    assert!(indexed.needs_rebuild());
    assert!(!client.contains("fast"));
}

#[test]
fn delete_forgets_a_collection() {
    let mut client = VectorDbClient::new(Some(4));
    load(&mut client, "X", 1);
    load(&mut client, "Y", 2);
    assert!(client.delete_collection("X"));
    assert!(!client.delete_collection("X"));
    assert!(!client.contains("X"));
    assert_eq!(client.resident_names(), vec!["Y".to_string()]);
    assert!(client.create_collection("X".to_string(), 3, false).is_ok());
}

#[test]
fn resident_collections_can_be_read_and_changed() {
    let mut client = VectorDbClient::new(Some(2));
    load(&mut client, "X", 1);
    load(&mut client, "Y", 2);
    assert!(client.collection("nope").is_none());
    assert!(client.collection_mut("nope", 3).is_none());
    assert_eq!(client.collection("X").unwrap().count(), 0);
    {
        let c = client.collection_mut("X", 3).unwrap();
        c.add(vec!["a".to_string()], vec![vec![0, 0, 0]], None).unwrap();
    }
    assert_eq!(client.collection("X").unwrap().count(), 1);
    // Reading leaves the time of last use alone; changing set it to 3.
    assert_eq!(load(&mut client, "Z", 4), Some("Y".to_string()));
    assert!(client.contains("X"));
}

#[test]
fn insert_replaces_a_resident_collection_of_the_same_name() {
    let mut client = VectorDbClient::new(Some(3));
    load(&mut client, "X", 1);
    let mut other = Collection::new("X".to_string(), 2);
    other.add(vec!["a".to_string()], vec![vec![0, 0]], None).unwrap();
    assert_eq!(client.insert("X".to_string(), other, 2), None);
    assert_eq!(client.resident_count(), 1);
    assert_eq!(client.collection("X").unwrap().config().dimension, 2);
}

#[test]
fn closures_read_resident_collections() {
    let mut client = VectorDbClient::new(Some(2));
    load(&mut client, "X", 1);
    assert_eq!(client.with_collection("X", |c| c.config().dimension), Some(3));
    assert_eq!(client.with_collection("nope", |c| c.count()), None);
    // Reading is no use: X is still the one that leaves.
    load(&mut client, "Y", 2);
    assert_eq!(load(&mut client, "Z", 3), Some("X".to_string()));
}

#[test]
fn replacing_a_resident_collection_evicts_none() {
    let mut client = VectorDbClient::new(Some(2));
    load(&mut client, "X", 1);
    load(&mut client, "Y", 2);
    let other = Collection::new("Y".to_string(), 5);
    assert_eq!(client.insert("Y".to_string(), other, 3), None);
    assert_eq!(client.resident_names(), vec!["X".to_string(), "Y".to_string()]);
    assert_eq!(client.collection("Y").unwrap().config().dimension, 5);
    assert_eq!(load(&mut client, "Z", 4), Some("X".to_string()));
}
