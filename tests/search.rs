use rtb::db::ItemEmbedding;
use rtb::embeddings::Embedding;
use rtb::error::RetrievalError;
use rtb::roam::{BlockId, BlockIdError};
use rtb::search::{
    select_top_k, Distance, DistanceError, DistanceMetric, SimilaritySearch, DEFAULT_TOP_K,
};

fn id(text: &str) -> BlockId {
    BlockId::parse(text).unwrap()
}

fn dist(value: f32) -> Distance {
    Distance::try_from_bits(value.to_bits()).unwrap()
}

fn embedding(values: &[f32]) -> Embedding {
    let bytes: Vec<u8> = values.iter().flat_map(|f| f.to_le_bytes()).collect();
    Embedding::from_bytes(&bytes)
}

fn query() -> SimilaritySearch {
    SimilaritySearch::new(embedding(&[1.0, 0.0]))
}

fn stored(name: &str, values: &[f32]) -> ItemEmbedding {
    ItemEmbedding {
        item_id: id(name),
        embedded_text: name.to_string(),
        embedding: embedding(values),
    }
}

#[test]
fn top_two_of_four_ascending() {
    let store = vec![
        stored("aaaaaaaaa", &[0.1, 0.2]),
        stored("bbbbbbbbb", &[0.3, 0.4]),
        stored("ccccccccc", &[0.5, 0.6]),
        stored("ddddddddd", &[0.7, 0.8]),
    ];
    let distances = vec![dist(0.5), dist(0.1), dist(0.9), dist(0.2)];
    let result = query().with_top_k(2).execute(&store, &distances).unwrap();
    assert_eq!(result, vec![(dist(0.1), id("bbbbbbbbb")), (dist(0.2), id("ddddddddd"))]);
}

#[test]
fn empty_store_fails_with_empty_result() {
    for k in [0, 1, 3] {
        let search = query().with_top_k(k);
        assert_eq!(search.execute(&vec![], &vec![]), Err(RetrievalError::EmptyResult));
        assert_eq!(search.check_store(&vec![]), Err(RetrievalError::EmptyResult));
    }
}

#[test]
fn zero_k_is_invalid_input() {
    let store = vec![stored("aaaaaaaaa", &[0.1, 0.2])];
    let search = query().with_top_k(0);
    assert_eq!(search.execute(&store, &vec![dist(0.5)]), Err(RetrievalError::InvalidInput));
}

#[test]
fn execute_refuses_dimension_mismatch() {
    let store = vec![stored("aaaaaaaaa", &[0.1, 0.2]), stored("bbbbbbbbb", &[0.1, 0.2, 0.3])];
    let distances = vec![dist(0.5), dist(0.1)];
    assert_eq!(query().execute(&store, &distances), Err(RetrievalError::InvalidInput));
}

#[test]
fn dimension_mismatch_is_invalid_input() {
    let stored = vec![
        ItemEmbedding {
            item_id: id("aaaaaaaaa"),
            embedded_text: "one".to_string(),
            embedding: embedding(&[0.5, 0.5]),
        },
        ItemEmbedding {
            item_id: id("bbbbbbbbb"),
            embedded_text: "two".to_string(),
            embedding: embedding(&[0.5, 0.5, 0.5]),
        },
    ];
    assert_eq!(query().check_store(&stored), Err(RetrievalError::InvalidInput));
    let matching = vec![ItemEmbedding {
        item_id: id("aaaaaaaaa"),
        embedded_text: "one".to_string(),
        embedding: embedding(&[0.5, 0.5]),
    }];
    assert_eq!(query().check_store(&matching), Ok(()));
}

#[test]
fn ties_break_by_item_id() {
    let scored = vec![
        (dist(0.3), id("zzzzzzzzz")),
        (dist(0.3), id("aaaaaaaaa")),
        (dist(0.3), id("mmmmmmmmm")),
    ];
    let result = select_top_k(&scored, 2);
    assert_eq!(result, vec![(dist(0.3), id("aaaaaaaaa")), (dist(0.3), id("mmmmmmmmm"))]);
}

#[test]
fn fewer_entries_than_k_returns_all_sorted() {
    let scored = vec![(dist(0.7), id("aaaaaaaaa")), (dist(0.2), id("bbbbbbbbb"))];
    let result = select_top_k(&scored, 5);
    assert_eq!(result, vec![(dist(0.2), id("bbbbbbbbb")), (dist(0.7), id("aaaaaaaaa"))]);
}

#[test]
fn selection_is_ascending_and_bounds_the_rest() {
    let values = [0.8f32, 0.05, 0.6, 0.3, 0.3, 0.95, 0.0, 0.41];
    let names = ["aaaaaaaaa", "bbbbbbbbb", "ccccccccc", "ddddddddd", "eeeeeeeee", "fffffffff", "ggggggggg", "hhhhhhhhh"];
    let scored: Vec<_> = values.iter().zip(names.iter()).map(|(v, n)| (dist(*v), id(n))).collect();
    let result = select_top_k(&scored, 3);
    assert_eq!(result.len(), 3);
    for pair in result.windows(2) {
        assert!(pair[0].0.to_bits() <= pair[1].0.to_bits());
    }
    let last = result.last().unwrap().0.to_bits();
    for entry in &scored {
        if !result.contains(entry) {
            assert!(last <= entry.0.to_bits());
        }
    }
}

#[test]
fn selection_ignores_scan_order() {
    let forward = vec![
        (dist(0.4), id("aaaaaaaaa")),
        (dist(0.1), id("bbbbbbbbb")),
        (dist(0.4), id("ccccccccc")),
        (dist(0.9), id("ddddddddd")),
        (dist(0.2), id("eeeeeeeee")),
    ];
    let mut backward = forward.clone();
    backward.reverse();
    let mut rotated = forward.clone();
    rotated.rotate_left(2);
    for k in 1..6 {
        let expected = select_top_k(&forward, k);
        assert_eq!(select_top_k(&backward, k), expected);
        assert_eq!(select_top_k(&rotated, k), expected);
    }
}

#[test]
fn builder_sets_fields() {
    let search = query();
    assert_eq!(search.top_k, DEFAULT_TOP_K);
    assert_eq!(search.distance_metric, DistanceMetric::Cosine);
    let search = search.with_top_k(7).with_distance_metric(DistanceMetric::Euclidean);
    assert_eq!(search.top_k, 7);
    assert_eq!(search.distance_metric, DistanceMetric::Euclidean);
}

#[test]
fn distance_from_bits() {
    assert_eq!(Distance::try_from_bits(0.25f32.to_bits()).map(|d| d.to_bits()), Ok(0.25f32.to_bits()));
    assert_eq!(Distance::try_from_bits((-0.0f32).to_bits()).map(|d| d.to_bits()), Ok(0));
    assert_eq!(Distance::try_from_bits((-0.5f32).to_bits()), Err(DistanceError::Negative));
    assert_eq!(Distance::try_from_bits(f32::NAN.to_bits()), Err(DistanceError::NotANumber));
    assert_eq!(Distance::try_from_bits(f32::INFINITY.to_bits()).map(|d| d.to_bits()), Ok(f32::INFINITY.to_bits()));
    assert!(dist(0.1).lt(&dist(0.2)));
    assert!(!dist(0.2).lt(&dist(0.1)));
}

#[test]
fn block_id_parsing() {
    let parsed = id("AbC-12_xy");
    assert_eq!(parsed.to_text(), "AbC-12_xy");
    assert_eq!(BlockId::parse("short"), Err(BlockIdError::WrongLength));
    assert_eq!(BlockId::parse("abcdéfgh1"), Err(BlockIdError::NotAscii));
    assert_eq!("abcdefghi".parse::<BlockId>().unwrap(), id("abcdefghi"));
    assert!(id("aaaaaaaab").le(&id("aaaaaaaac")));
    assert!(!id("aaaaaaaac").le(&id("aaaaaaaab")));
}
