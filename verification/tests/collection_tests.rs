use vectordb_rust::collection::{Collection, CollectionConfig, SearchResult};
use vectordb_rust::error::VectorDbError;
use vectordb_rust::filter::{FilterOperator, FilterValue, WhereFilter};
use vectordb_rust::kmeans::{FitStep, KMeans};
use vectordb_rust::vector::{Metadata, MetadataValue, VectorEntry};

fn dot(a: &[f32], b: &[f32]) -> f32 {
    a.iter().zip(b.iter()).map(|(x, y)| x * y).sum()
}

fn cosine_distance(a: &[f32], b: &[f32]) -> f32 {
    1.0 - dot(a, b)
}

fn normalized(v: &[f32]) -> Vec<f32> {
    let norm = dot(v, v).sqrt();
    if norm > 1e-10 {
        v.iter().map(|x| x / norm).collect()
    } else {
        v.to_vec()
    }
}

fn to_bits(v: &[f32]) -> Vec<u32> {
    v.iter().map(|x| x.to_bits()).collect()
}

fn from_bits(v: &[u32]) -> Vec<f32> {
    v.iter().map(|x| f32::from_bits(*x)).collect()
}

fn unit_bits(v: &[f32]) -> Vec<u32> {
    to_bits(&normalized(v))
}

fn names(list: &[&str]) -> Vec<String> {
    list.iter().map(|s| s.to_string()).collect()
}

fn text(s: &str) -> MetadataValue {
    MetadataValue::String(s.to_string())
}

fn kind(value: &str) -> Metadata {
    let mut m = Metadata::new();
    m.insert("kind".to_string(), text(value));
    m
}

struct Lcg(u64);

impl Lcg {
    fn next(&mut self) -> f32 {
        self.0 = self.0.wrapping_mul(6364136223846793005).wrapping_add(1442695040888963407);
        ((self.0 >> 40) as f32) / ((1u64 << 24) as f32) - 0.5
    }

    fn unit(&mut self, d: usize) -> Vec<f32> {
        loop {
            let v: Vec<f32> = (0..d).map(|_| self.next()).collect();
            if dot(&v, &v) > 1e-3 {
                return normalized(&v);
            }
        }
    }
}

fn train(data: &[Vec<f32>], k: usize) -> Vec<Vec<f32>> {
    let bits: Vec<Vec<u32>> = data.iter().map(|v| to_bits(v)).collect();
    let mut trainer = KMeans::new(k);
    let mut step = trainer.begin(&bits);
    loop {
        let centroids: Vec<Vec<f32>> = trainer.centroids.iter().map(|c| from_bits(c)).collect();
        let rows: Vec<Vec<u32>> = data
            .iter()
            .map(|x| centroids.iter().map(|c| cosine_distance(x, c).to_bits()).collect())
            .collect();
        match step {
            FitStep::Done => return centroids,
            FitStep::Seed => {
                let mut best = 0;
                let mut best_distance = f32::MIN;
                for (i, row) in rows.iter().enumerate() {
                    let nearest = row.iter().map(|d| f32::from_bits(*d)).fold(f32::MAX, f32::min);
                    if nearest > best_distance {
                        best_distance = nearest;
                        best = i;
                    }
                }
                step = trainer.seed(&bits, best).unwrap();
            }
            FitStep::Iterate => {
                let clusters = trainer.assign_clusters(&rows);
                let d = data[0].len();
                let mut sums = vec![vec![0.0f32; d]; centroids.len()];
                let mut counts = vec![0usize; centroids.len()];
                for (x, c) in data.iter().zip(clusters.iter()) {
                    for j in 0..d {
                        sums[*c][j] += x[j];
                    }
                    counts[*c] += 1;
                }
                let mut shift = 0.0f32;
                let mut means = Vec::new();
                for c in 0..centroids.len() {
                    let mean: Vec<f32> = if counts[c] > 0 {
                        sums[c].iter().map(|s| s / counts[c] as f32).collect()
                    } else {
                        centroids[c].clone()
                    };
                    shift += cosine_distance(&centroids[c], &mean);
                    means.push(to_bits(&mean));
                }
                step = trainer.update(means, shift.to_bits()).unwrap();
            }
        }
    }
}

fn rebuild(coll: &mut Collection) {
    if coll.rebuild_plan().is_none() {
        coll.rebuild_index(Vec::new(), &Vec::new()).unwrap();
    }
    if let Some(k) = coll.rebuild_plan() {
        let data: Vec<Vec<f32>> = coll.entries().iter().map(|e| from_bits(&e.embedding)).collect();
        let centroids = train(&data, k);
        let rows: Vec<Vec<u32>> = data
            .iter()
            .map(|x| centroids.iter().map(|c| cosine_distance(x, c).to_bits()).collect())
            .collect();
        let centroid_bits: Vec<Vec<u32>> = centroids.iter().map(|c| to_bits(c)).collect();
        coll.rebuild_index(centroid_bits, &rows).unwrap();
    }
}

fn search(
    coll: &mut Collection,
    query: &[f32],
    k: usize,
    filter: Option<&WhereFilter>,
) -> Result<Vec<SearchResult>, VectorDbError> {
    if coll.prepare_query(query.len())?.is_some() {
        rebuild(coll);
    }
    let q = normalized(query);
    let centroid_distances: Vec<u32> = match coll.index() {
        Some(index) => index
            .centroids()
            .iter()
            .map(|c| cosine_distance(&q, &from_bits(c)).to_bits())
            .collect(),
        None => Vec::new(),
    };
    let distances: Vec<u32> = coll
        .entries()
        .iter()
        .map(|e| {
            if e.embedding.len() == q.len() {
                cosine_distance(&q, &from_bits(&e.embedding)).to_bits()
            } else {
                0
            }
        })
        .collect();
    coll.query(query.len(), &centroid_distances, &distances, k, filter, 1.5f64.to_bits())
}

fn ids_of(results: &[SearchResult]) -> Vec<String> {
    results.iter().map(|r| r.id.clone()).collect()
}

fn axes() -> Collection {
    let mut coll = Collection::new("c".to_string(), 3);
    coll.add(
        names(&["a", "b", "c"]),
        vec![
            unit_bits(&[1.0, 0.0, 0.0]),
            unit_bits(&[0.0, 1.0, 0.0]),
            unit_bits(&[0.0, 0.0, 1.0]),
        ],
        Some(vec![Metadata::new(), Metadata::new(), Metadata::new()]),
    )
    .unwrap();
    coll
}

#[test]
fn basic_cosine_ordering() {
    let mut coll = axes();
    let results = search(&mut coll, &[1.0, 0.0, 0.0], 3, None).unwrap();
    assert_eq!(ids_of(&results), names(&["a", "b", "c"]));
    let distances: Vec<f32> = results.iter().map(|r| f32::from_bits(r.distance)).collect();
    assert_eq!(distances, vec![0.0, 1.0, 1.0]);
}

#[test]
fn query_keeps_the_closest_and_counts() {
    let mut coll = axes();
    let results = search(&mut coll, &[0.1, 0.9, 0.2], 1, None).unwrap();
    assert_eq!(ids_of(&results), names(&["b"]));
    let none = search(&mut coll, &[0.1, 0.9, 0.2], 0, None).unwrap();
    assert!(none.is_empty());
    let stats = coll.stats();
    assert_eq!(stats.total_queries, 2);
    assert_eq!(f64::from_bits(stats.last_query_time_ms), 1.5);
}

#[test]
fn stored_components_come_back_unchanged() {
    let mut coll = Collection::new("c".to_string(), 3);
    coll.add(names(&["x"]), vec![unit_bits(&[3.0, 4.0, 0.0])], None).unwrap();
    let got = coll.get(Some(names(&["x"])), Some(names(&["embeddings"]))).unwrap();
    assert_eq!(got.ids, names(&["x"]));
    assert!(got.metadatas.is_none());
    let embeddings = got.embeddings.unwrap();
    assert_eq!(embeddings.len(), 1);
    let e = from_bits(&embeddings[0]);
    assert!((e[0] - 0.6).abs() < 1e-6);
    assert!((e[1] - 0.8).abs() < 1e-6);
    assert!(e[2].abs() < 1e-6);
}

#[test]
fn filter_selects_tagged_vectors() {
    let mut coll = Collection::new("c".to_string(), 3);
    let mut rng = Lcg(7);
    let vectors: Vec<Vec<u32>> = (0..5).map(|_| to_bits(&rng.unit(3))).collect();
    coll.add(
        names(&["v0", "v1", "v2", "v3", "v4"]),
        vectors,
        Some(vec![kind("A"), kind("B"), kind("A"), kind("B"), kind("A")]),
    )
    .unwrap();
    let filter: WhereFilter = vec![(
        "kind".to_string(),
        FilterValue::Operator(FilterOperator {
            ne: None,
            in_values: Some(vec![text("B")]),
            nin: None,
        }),
    )];
    let results = search(&mut coll, &[0.3, 0.2, 0.9], 10, Some(&filter)).unwrap();
    let mut found = ids_of(&results);
    found.sort();
    assert_eq!(found, names(&["v1", "v3"]));
    for r in &results {
        assert_eq!(r.metadata.get("kind"), Some(&text("B")));
    }
}

#[test]
fn ivf_agrees_with_linear_when_every_cluster_is_probed() {
    let mut rng = Lcg(42);
    let vectors: Vec<Vec<f32>> = (0..300).map(|_| rng.unit(3)).collect();
    let ids: Vec<String> = (0..300).map(|i| format!("id{}", i)).collect();
    let bits: Vec<Vec<u32>> = vectors.iter().map(|v| to_bits(v)).collect();

    let mut linear = Collection::new("l".to_string(), 3);
    linear.add(ids.clone(), bits.clone(), None).unwrap();

    let mut indexed = Collection::new_with_ivf("i".to_string(), 3, 16).with_n_probe(16);
    indexed.add(ids.clone(), bits.clone(), None).unwrap();
    rebuild(&mut indexed);
    assert!(!indexed.needs_rebuild());
    let index = indexed.index().unwrap();
    assert!(index.is_built());
    assert_eq!(index.centroids().len(), 16);
    assert_eq!(index.n_probe(), 16);

    for _ in 0..20 {
        let q = rng.unit(3);
        let expected = search(&mut linear, &q, 5, None).unwrap();
        let got = search(&mut indexed, &q, 5, None).unwrap();
        assert_eq!(ids_of(&got), ids_of(&expected));
        assert_eq!(
            got.iter().map(|r| r.distance).collect::<Vec<u32>>(),
            expected.iter().map(|r| r.distance).collect::<Vec<u32>>()
        );
    }
}

#[test]
fn a_narrow_probe_finds_no_closer_vectors() {
    let mut rng = Lcg(43);
    let ids: Vec<String> = (0..300).map(|i| format!("id{}", i)).collect();
    let bits: Vec<Vec<u32>> = (0..300).map(|_| to_bits(&rng.unit(3))).collect();
    let mut linear = Collection::new("l".to_string(), 3);
    linear.add(ids.clone(), bits.clone(), None).unwrap();
    let mut indexed = Collection::new_with_ivf("i".to_string(), 3, 16);
    indexed.add(ids, bits, None).unwrap();
    rebuild(&mut indexed);
    assert_eq!(indexed.index().unwrap().n_probe(), 4);
    for _ in 0..20 {
        let q = rng.unit(3);
        let expected = search(&mut linear, &q, 5, None).unwrap();
        let got = search(&mut indexed, &q, 5, None).unwrap();
        assert!(got.len() <= 5);
        for (g, e) in got.iter().zip(expected.iter()) {
            assert!(f32::from_bits(g.distance) >= f32::from_bits(e.distance));
        }
    }
}

#[test]
fn n_probe_of_a_collection_is_clamped() {
    let wide = Collection::new_with_ivf("w".to_string(), 3, 8).with_n_probe(100);
    assert_eq!(wide.index().unwrap().n_probe(), 8);
    let narrow = Collection::new_with_ivf("n".to_string(), 3, 8).with_n_probe(0);
    assert_eq!(narrow.index().unwrap().n_probe(), 1);
    let plain = Collection::new("p".to_string(), 3).with_n_probe(5);
    assert!(plain.index().is_none());
}

#[test]
fn full_probe_matches_linear_exactly() {
    let mut rng = Lcg(99);
    let vectors: Vec<Vec<f32>> = (0..300).map(|_| rng.unit(3)).collect();
    let ids: Vec<String> = (0..300).map(|i| format!("id{}", i)).collect();
    let bits: Vec<Vec<u32>> = vectors.iter().map(|v| to_bits(v)).collect();

    let mut linear = Collection::new("l".to_string(), 3);
    linear.add(ids.clone(), bits.clone(), None).unwrap();

    // Four clusters, and four are probed by default: every list is read.
    let mut indexed = Collection::new_with_ivf("i".to_string(), 3, 4);
    indexed.add(ids.clone(), bits.clone(), None).unwrap();
    rebuild(&mut indexed);
    assert_eq!(indexed.index().unwrap().centroids().len(), 4);

    for _ in 0..20 {
        let q = rng.unit(3);
        let expected = search(&mut linear, &q, 5, None).unwrap();
        let got = search(&mut indexed, &q, 5, None).unwrap();
        assert_eq!(got.len(), 5);
        let expected_distances: Vec<u32> = expected.iter().map(|r| r.distance).collect();
        let got_distances: Vec<u32> = got.iter().map(|r| r.distance).collect();
        assert_eq!(got_distances, expected_distances);
        let mut a = ids_of(&expected);
        let mut b = ids_of(&got);
        a.sort();
        b.sort();
        assert_eq!(a, b);
    }
}

#[test]
fn rebuild_threshold() {
    let mut rng = Lcg(5);
    let ids: Vec<String> = (0..1000).map(|i| format!("id{}", i)).collect();
    let bits: Vec<Vec<u32>> = (0..1000).map(|_| to_bits(&rng.unit(3))).collect();
    let mut coll = Collection::new_with_ivf("c".to_string(), 3, 8);
    coll.add(ids.clone(), bits, None).unwrap();
    assert!(coll.needs_rebuild());
    rebuild(&mut coll);
    assert!(!coll.needs_rebuild());
    assert_eq!(coll.modifications_count(), 0);

    // 50 changes among 1000 vectors: below the threshold of 100.
    let again: Vec<Vec<u32>> = (0..50).map(|_| to_bits(&rng.unit(3))).collect();
    coll.add(ids[..50].to_vec(), again, None).unwrap();
    assert_eq!(coll.count(), 1000);
    assert!(!coll.rebuild_due());
    search(&mut coll, &[1.0, 0.0, 0.0], 3, None).unwrap();
    let info = coll.stats().index_info.unwrap();
    assert!(info.needs_rebuild);
    assert_eq!(coll.modifications_count(), 50);

    // 51 more: 101 changes have reached it.
    let more: Vec<Vec<u32>> = (0..51).map(|_| to_bits(&rng.unit(3))).collect();
    coll.add(ids[50..101].to_vec(), more, None).unwrap();
    assert!(coll.rebuild_due());
    search(&mut coll, &[1.0, 0.0, 0.0], 3, None).unwrap();
    let info = coll.stats().index_info.unwrap();
    assert!(!info.needs_rebuild);
    assert!(info.is_built);
    assert_eq!(coll.modifications_count(), 0);
}

#[test]
fn rebuild_threshold_grows_with_the_collection() {
    let mut rng = Lcg(6);
    let ids: Vec<String> = (0..1000).map(|i| format!("id{}", i)).collect();
    let bits: Vec<Vec<u32>> = (0..1000).map(|_| to_bits(&rng.unit(3))).collect();
    let mut coll = Collection::new_with_ivf("c".to_string(), 3, 8);
    coll.add(ids, bits, None).unwrap();
    rebuild(&mut coll);
    // 101 new vectors make 1101: a tenth, rounded up, is 111.
    let fresh: Vec<String> = (0..101).map(|i| format!("new{}", i)).collect();
    let more: Vec<Vec<u32>> = (0..101).map(|_| to_bits(&rng.unit(3))).collect();
    coll.add(fresh, more, None).unwrap();
    assert_eq!(coll.count(), 1101);
    assert!(!coll.rebuild_due());
    let ten: Vec<String> = (0..10).map(|i| format!("new{}", i)).collect();
    coll.delete(ten).unwrap();
    // 111 changes among 1091 vectors: the threshold is 110.
    assert_eq!(coll.modifications_count(), 111);
    assert!(coll.rebuild_due());
}

#[test]
fn small_collections_rebuild_after_ten_changes() {
    let mut coll = Collection::new_with_ivf("c".to_string(), 2, 2);
    let ids: Vec<String> = (0..9).map(|i| format!("id{}", i)).collect();
    let bits: Vec<Vec<u32>> = (0..9).map(|i| unit_bits(&[1.0, i as f32])).collect();
    coll.add(ids, bits, None).unwrap();
    assert!(coll.needs_rebuild());
    assert!(!coll.rebuild_due());
    coll.add(names(&["last"]), vec![unit_bits(&[0.5, 0.5])], None).unwrap();
    assert_eq!(coll.modifications_count(), 10);
    assert!(coll.rebuild_due());
    assert_eq!(coll.rebuild_plan(), Some(1));
}

#[test]
fn batch_mode_leaves_the_flag_alone() {
    let mut coll = Collection::new_with_ivf("c".to_string(), 2, 2);
    coll.add(names(&["a"]), vec![unit_bits(&[1.0, 0.0])], None).unwrap();
    rebuild(&mut coll);
    assert!(!coll.needs_rebuild());
    coll.begin_batch();
    assert!(coll.batch_mode());
    coll.add(names(&["b"]), vec![unit_bits(&[0.0, 1.0])], None).unwrap();
    coll.delete(names(&["a"])).unwrap();
    assert!(!coll.needs_rebuild());
    assert_eq!(coll.modifications_count(), 2);
    coll.end_batch();
    assert!(!coll.batch_mode());
    assert!(coll.needs_rebuild());
}

#[test]
fn end_batch_without_changes_sets_nothing() {
    let mut coll = Collection::new_with_ivf("c".to_string(), 2, 2);
    coll.add(names(&["a"]), vec![unit_bits(&[1.0, 0.0])], None).unwrap();
    rebuild(&mut coll);
    coll.begin_batch();
    coll.end_batch();
    assert!(!coll.needs_rebuild());
    let mut plain = Collection::new("p".to_string(), 2);
    plain.add(names(&["a"]), vec![unit_bits(&[1.0, 0.0])], None).unwrap();
    plain.begin_batch();
    plain.end_batch();
    assert!(!plain.needs_rebuild());
    assert_eq!(plain.modifications_count(), 1);
}

#[test]
fn add_refuses_lists_of_different_lengths() {
    let mut coll = Collection::new("c".to_string(), 2);
    let r = coll.add(names(&["a", "b"]), vec![unit_bits(&[1.0, 0.0])], None);
    match r {
        Err(VectorDbError::InvalidConfig(m)) => {
            assert_eq!(m, "ids and embeddings must have the same length")
        }
        _ => panic!("lists of different lengths were taken"),
    }
    let r = coll.add(names(&["a"]), vec![unit_bits(&[1.0, 0.0])], Some(Vec::new()));
    match r {
        Err(VectorDbError::InvalidConfig(m)) => {
            assert_eq!(m, "metadatas must have the same length as ids")
        }
        _ => panic!("metadata of another length were taken"),
    }
    assert_eq!(coll.count(), 0);
    assert_eq!(coll.modifications_count(), 0);
}

#[test]
fn add_refuses_another_dimension_and_keeps_what_came_before() {
    let mut coll = Collection::new("c".to_string(), 2);
    let r = coll.add(
        names(&["a", "b", "c"]),
        vec![unit_bits(&[1.0, 0.0]), unit_bits(&[1.0, 0.0, 0.0]), unit_bits(&[0.0, 1.0])],
        None,
    );
    match r {
        Err(VectorDbError::DimensionMismatch { expected, actual }) => {
            assert_eq!(expected, 2);
            assert_eq!(actual, 3);
        }
        _ => panic!("a vector of another dimension was taken"),
    }
    assert_eq!(coll.count(), 1);
    assert_eq!(coll.entries()[0].id, "a");
    assert_eq!(coll.modifications_count(), 0);
}

#[test]
fn add_replaces_in_place() {
    let mut coll = axes();
    let mut m = Metadata::new();
    m.insert("n".to_string(), MetadataValue::Int(7));
    coll.add(names(&["b"]), vec![unit_bits(&[1.0, 1.0, 0.0])], Some(vec![m])).unwrap();
    assert_eq!(coll.count(), 3);
    let got = coll.get(None, None).unwrap();
    assert_eq!(got.ids, names(&["a", "b", "c"]));
    let metadatas = got.metadatas.unwrap();
    assert_eq!(metadatas[1].get("n"), Some(&MetadataValue::Int(7)));
    assert_eq!(got.embeddings.unwrap()[1], unit_bits(&[1.0, 1.0, 0.0]));
    assert_eq!(coll.modifications_count(), 4);
    assert!(!coll.needs_rebuild());
}

#[test]
fn get_skips_unknown_identifiers_and_follows_the_order_asked() {
    let coll = axes();
    let got = coll.get(Some(names(&["c", "zzz", "a", "c"])), Some(names(&["metadatas"]))).unwrap();
    assert_eq!(got.ids, names(&["c", "a", "c"]));
    assert!(got.embeddings.is_none());
    assert_eq!(got.metadatas.unwrap().len(), 3);
    let bare = coll.get(Some(names(&["b"])), Some(Vec::new())).unwrap();
    assert_eq!(bare.ids, names(&["b"]));
    assert!(bare.embeddings.is_none());
    assert!(bare.metadatas.is_none());
}

#[test]
fn update_merges_metadata() {
    let mut coll = Collection::new("c".to_string(), 2);
    let mut first = Metadata::new();
    first.insert("kind".to_string(), text("A"));
    first.insert("n".to_string(), MetadataValue::Int(1));
    coll.add(names(&["a"]), vec![unit_bits(&[1.0, 0.0])], Some(vec![first])).unwrap();
    let mut change = Metadata::new();
    change.insert("n".to_string(), MetadataValue::Int(2));
    change.insert("ok".to_string(), MetadataValue::Bool(true));
    coll.update(names(&["a"]), vec![change]).unwrap();
    let stored = &coll.entries()[0];
    assert_eq!(stored.metadata.get("kind"), Some(&text("A")));
    assert_eq!(stored.metadata.get("n"), Some(&MetadataValue::Int(2)));
    assert_eq!(stored.metadata.get("ok"), Some(&MetadataValue::Bool(true)));
    assert_eq!(stored.metadata.len(), 3);
    assert_eq!(stored.embedding, unit_bits(&[1.0, 0.0]));
    assert_eq!(coll.modifications_count(), 1);
}

#[test]
fn update_refuses_unknown_identifiers() {
    let mut coll = axes();
    let r = coll.update(names(&["a", "nope", "b"]), vec![kind("X"), kind("Y"), kind("Z")]);
    match r {
        Err(VectorDbError::VectorNotFound(id)) => assert_eq!(id, "nope"),
        _ => panic!("an unknown identifier was updated"),
    }
    assert_eq!(coll.entries()[0].metadata.get("kind"), Some(&text("X")));
    assert_eq!(coll.entries()[1].metadata.get("kind"), None);
    let r = coll.update(names(&["a"]), Vec::new());
    match r {
        Err(VectorDbError::InvalidConfig(m)) => {
            assert_eq!(m, "ids and metadatas must have the same length")
        }
        _ => panic!("lists of different lengths were taken"),
    }
}

#[test]
fn delete_removes_and_counts_every_identifier() {
    let mut coll = axes();
    coll.delete(names(&["b", "nope", "b"])).unwrap();
    assert_eq!(coll.count(), 2);
    let got = coll.get(None, None).unwrap();
    assert_eq!(got.ids, names(&["a", "c"]));
    assert_eq!(coll.modifications_count(), 6);
    let got = coll.get(Some(names(&["c", "b"])), None).unwrap();
    assert_eq!(got.ids, names(&["c"]));
    coll.add(names(&["b"]), vec![unit_bits(&[0.0, 1.0, 0.0])], None).unwrap();
    assert_eq!(coll.get(None, None).unwrap().ids, names(&["a", "c", "b"]));
}

#[test]
fn stats_report_the_estimate() {
    let coll = axes();
    let stats = coll.stats();
    assert_eq!(stats.name, "c");
    assert_eq!(stats.dimension, 3);
    assert_eq!(stats.count, 3);
    assert!(!stats.use_ivf);
    assert!(stats.index_info.is_none());
    assert_eq!(stats.estimated_memory_bytes, 3 * (3 * 4 + 64));
    assert_eq!(stats.total_queries, 0);

    let mut indexed = Collection::new_with_ivf("i".to_string(), 2, 3);
    let ids: Vec<String> = (0..40).map(|i| format!("id{}", i)).collect();
    let bits: Vec<Vec<u32>> = (0..40).map(|i| unit_bits(&[1.0, i as f32])).collect();
    indexed.add(ids, bits, None).unwrap();
    let before = indexed.stats().index_info.unwrap();
    assert!(!before.is_built);
    assert_eq!(before.n_clusters, 3);
    assert_eq!(before.n_centroids, 0);
    assert!(before.needs_rebuild);
    rebuild(&mut indexed);
    let stats = indexed.stats();
    let info = stats.index_info.unwrap();
    assert!(info.is_built);
    assert_eq!(info.n_centroids, 3);
    assert_eq!(stats.estimated_memory_bytes, 40 * (2 * 4 + 64) + 3 * 2 * 4);
}

#[test]
fn stats_estimate_saturates() {
    let mut coll = Collection::new("c".to_string(), usize::MAX);
    assert_eq!(coll.stats().estimated_memory_bytes, 0);
    let r = coll.add(names(&["a"]), vec![vec![0]], None);
    assert!(matches!(r, Err(VectorDbError::DimensionMismatch { .. })));
    assert_eq!(coll.stats().estimated_memory_bytes, 0);
}

#[test]
fn query_refuses_another_dimension() {
    let mut coll = axes();
    let r = search(&mut coll, &[1.0, 0.0], 3, None);
    match r {
        Err(VectorDbError::DimensionMismatch { expected, actual }) => {
            assert_eq!(expected, 3);
            assert_eq!(actual, 2);
        }
        _ => panic!("a query of another dimension was answered"),
    }
    assert_eq!(coll.stats().total_queries, 0);
}

#[test]
fn query_refuses_distances_that_do_not_fit() {
    let mut coll = axes();
    let r = coll.query(3, &Vec::new(), &vec![0, 0], 3, None, 0);
    match r {
        Err(VectorDbError::InvalidConfig(m)) => {
            assert_eq!(m, "one distance is needed for each stored vector")
        }
        _ => panic!("too few distances were taken"),
    }
    let mut indexed = Collection::new_with_ivf("i".to_string(), 2, 2);
    indexed.add(names(&["a"]), vec![unit_bits(&[1.0, 0.0])], None).unwrap();
    rebuild(&mut indexed);
    let r = indexed.query(2, &Vec::new(), &vec![0], 3, None, 0);
    match r {
        Err(VectorDbError::InvalidConfig(m)) => {
            assert_eq!(m, "one distance is needed for each centroid")
        }
        _ => panic!("too few centroid distances were taken"),
    }
    assert_eq!(indexed.stats().total_queries, 0);
}

#[test]
fn equal_distances_keep_stored_order() {
    let mut coll = Collection::new("c".to_string(), 2);
    coll.add(
        names(&["p", "q", "r", "s"]),
        vec![
            unit_bits(&[0.0, 1.0]),
            unit_bits(&[1.0, 0.0]),
            unit_bits(&[0.0, 1.0]),
            unit_bits(&[1.0, 0.0]),
        ],
        None,
    )
    .unwrap();
    let results = search(&mut coll, &[1.0, 0.0], 4, None).unwrap();
    assert_eq!(ids_of(&results), names(&["q", "s", "p", "r"]));
    let results = search(&mut coll, &[1.0, 0.0], 3, None).unwrap();
    assert_eq!(ids_of(&results), names(&["q", "s", "p"]));
}

#[test]
fn nan_distances_come_last() {
    let mut coll = axes();
    let distances = vec![f32::NAN.to_bits(), 0.5f32.to_bits(), (-0.25f32).to_bits()];
    let results = coll.query(3, &Vec::new(), &distances, 3, None, 0).unwrap();
    assert_eq!(ids_of(&results), names(&["c", "b", "a"]));
}

#[test]
fn deleted_vectors_leave_the_index_untouched_and_are_skipped() {
    let mut coll = Collection::new_with_ivf("c".to_string(), 2, 1);
    let ids: Vec<String> = (0..12).map(|i| format!("id{}", i)).collect();
    let bits: Vec<Vec<u32>> = (0..12).map(|i| unit_bits(&[1.0, i as f32])).collect();
    coll.add(ids.clone(), bits, None).unwrap();
    rebuild(&mut coll);
    coll.delete(names(&["id0"])).unwrap();
    assert!(!coll.rebuild_due());
    let lists = coll.index().unwrap().inverted_lists();
    assert_eq!(lists.len(), 1);
    assert_eq!(lists[0].len(), 12);
    let results = search(&mut coll, &[1.0, 0.0], 3, None).unwrap();
    assert_eq!(ids_of(&results), names(&["id1", "id2", "id3"]));
}

#[test]
fn restore_gives_back_what_was_saved() {
    let mut coll = Collection::new_with_ivf("c".to_string(), 2, 2);
    let ids: Vec<String> = (0..30).map(|i| format!("id{}", i)).collect();
    let bits: Vec<Vec<u32>> = (0..30).map(|i| unit_bits(&[1.0, i as f32])).collect();
    let metas: Vec<Metadata> = (0..30).map(|i| kind(if i % 2 == 0 { "A" } else { "B" })).collect();
    coll.add(ids, bits, Some(metas)).unwrap();

    let mut plain = Collection::new("p".to_string(), 2);
    plain.add(names(&["a", "b"]), vec![unit_bits(&[1.0, 0.0]), unit_bits(&[0.6, 0.8])], None).unwrap();
    let before = search(&mut plain, &[0.7, 0.7], 2, None).unwrap();
    let loaded = Collection::restore(
        plain.config().clone(),
        plain.entries().iter().map(|e| e.clone()).collect(),
        plain.modifications_count(),
    );
    let mut loaded = loaded.unwrap();
    assert!(!loaded.needs_rebuild());
    let after = search(&mut loaded, &[0.7, 0.7], 2, None).unwrap();
    assert_eq!(ids_of(&after), ids_of(&before));
    assert_eq!(
        after.iter().map(|r| r.distance).collect::<Vec<u32>>(),
        before.iter().map(|r| r.distance).collect::<Vec<u32>>()
    );

    rebuild(&mut coll);
    assert!(!coll.needs_rebuild());
    let loaded = Collection::restore(
        coll.config().clone(),
        coll.entries().iter().map(|e| e.clone()).collect(),
        coll.modifications_count(),
    )
    .unwrap();
    assert_eq!(loaded.config().name, "c");
    assert_eq!(loaded.config().dimension, 2);
    assert!(loaded.config().use_ivf);
    assert_eq!(loaded.config().n_clusters, 2);
    assert_eq!(loaded.count(), 30);
    assert!(loaded.needs_rebuild());
    assert!(!loaded.index().unwrap().is_built());
    for (a, b) in loaded.entries().iter().zip(coll.entries().iter()) {
        assert_eq!(a.id, b.id);
        assert_eq!(a.embedding, b.embedding);
        assert_eq!(a.metadata.get("kind"), b.metadata.get("kind"));
    }
}

#[test]
fn restore_refuses_another_dimension() {
    let config = CollectionConfig { name: "c".to_string(), dimension: 2, use_ivf: false, n_clusters: 0 };
    let entries = vec![
        VectorEntry::new("a".to_string(), unit_bits(&[1.0, 0.0]), Metadata::new()),
        VectorEntry::new("b".to_string(), unit_bits(&[1.0, 0.0, 0.0]), Metadata::new()),
    ];
    match Collection::restore(config, entries, 0) {
        Err(VectorDbError::DimensionMismatch { expected, actual }) => {
            assert_eq!(expected, 2);
            assert_eq!(actual, 3);
        }
        _ => panic!("a vector of another dimension was restored"),
    }
}

#[test]
fn rebuild_refuses_centroids_that_do_not_fit() {
    let mut coll = Collection::new_with_ivf("c".to_string(), 2, 3);
    coll.add(names(&["a", "b"]), vec![unit_bits(&[1.0, 0.0]), unit_bits(&[0.0, 1.0])], None).unwrap();
    assert_eq!(coll.rebuild_plan(), Some(1));
    let r = coll.rebuild_index(Vec::new(), &Vec::new());
    match r {
        Err(VectorDbError::InvalidConfig(m)) => {
            assert_eq!(m, "centroids and distances do not fit the data")
        }
        _ => panic!("no centroids were taken"),
    }
    assert!(coll.needs_rebuild());
    let mut plain = Collection::new("p".to_string(), 2);
    assert_eq!(plain.rebuild_plan(), None);
    plain.rebuild_index(Vec::new(), &Vec::new()).unwrap();
}

#[test]
fn rebuild_without_vectors_clears_the_flag() {
    let mut empty = Collection::new_with_ivf("e".to_string(), 3, 4);
    assert!(empty.needs_rebuild());
    assert_eq!(empty.rebuild_plan(), None);
    empty.rebuild_index(Vec::new(), &Vec::new()).unwrap();
    let info = empty.stats().index_info.unwrap();
    assert!(!info.is_built);
    assert_eq!(info.n_clusters, 4);
    assert_eq!(info.n_centroids, 0);
    assert!(!info.needs_rebuild);
    assert_eq!(empty.modifications_count(), 0);

    // The arguments are not read, and counted changes are forgotten.
    let mut emptied = Collection::new_with_ivf("d".to_string(), 2, 2);
    emptied.add(names(&["a"]), vec![unit_bits(&[1.0, 0.0])], None).unwrap();
    rebuild(&mut emptied);
    emptied.delete(names(&["a"])).unwrap();
    assert!(emptied.needs_rebuild());
    assert_eq!(emptied.modifications_count(), 1);
    emptied.rebuild_index(vec![vec![7, 7]], &vec![vec![1]]).unwrap();
    assert!(!emptied.needs_rebuild());
    assert_eq!(emptied.modifications_count(), 0);
    let index = emptied.index().unwrap();
    assert!(index.is_built());
    assert_eq!(index.inverted_lists()[0], names(&["a"]));

    // Up to date already: nothing changes.
    emptied.rebuild_index(Vec::new(), &Vec::new()).unwrap();
    assert!(!emptied.needs_rebuild());
}

#[test]
fn prepare_query_says_when_to_rebuild() {
    let mut coll = Collection::new_with_ivf("c".to_string(), 2, 3);
    let ids: Vec<String> = (0..45).map(|i| format!("id{}", i)).collect();
    let bits: Vec<Vec<u32>> = (0..45).map(|i| unit_bits(&[1.0, i as f32])).collect();
    coll.add(ids, bits, None).unwrap();
    assert!(matches!(
        coll.prepare_query(3),
        Err(VectorDbError::DimensionMismatch { expected: 2, actual: 3 })
    ));
    assert_eq!(coll.prepare_query(2).unwrap(), Some(3));
    rebuild(&mut coll);
    assert_eq!(coll.prepare_query(2).unwrap(), None);
    coll.delete(names(&["id0", "id1", "id2"])).unwrap();
    assert!(coll.needs_rebuild());
    assert_eq!(coll.prepare_query(2).unwrap(), None);
    let plain = Collection::new("p".to_string(), 2);
    assert_eq!(plain.prepare_query(2).unwrap(), None);
}

#[test]
fn probing_half_the_clusters_finds_most_neighbours() {
    for seed in [1u64, 2, 3] {
        let mut rng = Lcg(seed);
        let ids: Vec<String> = (0..500).map(|i| format!("id{}", i)).collect();
        let bits: Vec<Vec<u32>> = (0..500).map(|_| to_bits(&rng.unit(3))).collect();
        let mut linear = Collection::new("l".to_string(), 3);
        linear.add(ids.clone(), bits.clone(), None).unwrap();
        let mut indexed = Collection::new_with_ivf("i".to_string(), 3, 16).with_n_probe(8);
        indexed.add(ids, bits, None).unwrap();
        rebuild(&mut indexed);
        assert_eq!(indexed.index().unwrap().centroids().len(), 16);
        let mut found = 0;
        let mut wanted = 0;
        for _ in 0..20 {
            let q = rng.unit(3);
            let truth = ids_of(&search(&mut linear, &q, 10, None).unwrap());
            let got = ids_of(&search(&mut indexed, &q, 10, None).unwrap());
            wanted += truth.len();
            found += truth.iter().filter(|id| got.contains(id)).count();
        }
        assert!(found * 10 >= wanted * 8);
    }
}

#[test]
fn candidates_are_the_positions_that_a_query_scores() {
    let mut coll = Collection::new_with_ivf("c".to_string(), 2, 2).with_n_probe(1);
    let ids: Vec<String> = (0..20).map(|i| format!("id{}", i)).collect();
    let bits: Vec<Vec<u32>> = (0..20).map(|i| unit_bits(&[1.0, i as f32])).collect();
    let metas: Vec<Metadata> = (0..20).map(|i| kind(if i % 4 == 0 { "A" } else { "B" })).collect();
    coll.add(ids, bits, Some(metas)).unwrap();
    let only_a: WhereFilter = vec![("kind".to_string(), FilterValue::Direct(text("A")))];

    // Without a built index every stored vector is scored, in stored order.
    let all: Vec<usize> = (0..20).collect();
    assert_eq!(coll.candidates(&Vec::new(), None).unwrap(), all);
    assert_eq!(coll.candidates(&Vec::new(), Some(&only_a)).unwrap(), vec![0, 4, 8, 12, 16]);

    // Two clusters: even positions in the first, odd ones in the second.
    let centroids = vec![to_bits(&[1.0, 0.0]), to_bits(&[0.0, 1.0])];
    let rows: Vec<Vec<u32>> = (0..20)
        .map(|i| if i % 2 == 0 { to_bits(&[0.1, 0.9]) } else { to_bits(&[0.9, 0.1]) })
        .collect();
    coll.rebuild_index(centroids, &rows).unwrap();
    assert!(!coll.needs_rebuild());
    let near_second = to_bits(&[0.8, 0.2]);
    let odd: Vec<usize> = (0..20).filter(|i| i % 2 == 1).collect();
    assert_eq!(coll.candidates(&near_second, None).unwrap(), odd);
    assert!(coll.candidates(&near_second, Some(&only_a)).unwrap().is_empty());
    let near_first = to_bits(&[0.2, 0.8]);
    assert_eq!(coll.candidates(&near_first, Some(&only_a)).unwrap(), vec![0, 4, 8, 12, 16]);
    assert!(matches!(coll.candidates(&Vec::new(), None), Err(VectorDbError::InvalidConfig(_))));

    // A deleted vector stays in its list and is passed over.
    coll.delete(names(&["id4"])).unwrap();
    assert_eq!(coll.candidates(&near_first, Some(&only_a)).unwrap(), vec![0, 7, 11, 15]);
}
