use rtb::embeddings::{check_embedding_batch, Embedding};
use rtb::error::RetrievalError;

fn bytes_of(values: &[f32]) -> Vec<u8> {
    values.iter().flat_map(|f| f.to_le_bytes()).collect()
}

#[test]
fn roundtrip_embedding_to_bytes() {
    let embedding = Embedding::from_bytes(&bytes_of(&[1.0, 2.0, 3.0]));
    let bytes = embedding.to_bytes();
    let embedding2 = Embedding::from_bytes(&bytes);
    assert_eq!(embedding, embedding2);
}

#[test]
fn embedding_keeps_bytes_and_counts_components() {
    let bytes = bytes_of(&[1.0, -2.5, 3.25]);
    let embedding = Embedding::from_bytes(&bytes);
    assert_eq!(embedding.to_bytes(), bytes);
    assert_eq!(embedding.dimensionality(), 3);
}

#[test]
fn embedding_drops_trailing_partial_component() {
    let mut bytes = bytes_of(&[1.0, 2.0]);
    bytes.push(7);
    bytes.push(9);
    let embedding = Embedding::from_bytes(&bytes);
    assert_eq!(embedding.dimensionality(), 2);
    assert_eq!(embedding.to_bytes(), bytes_of(&[1.0, 2.0]));
}

#[test]
fn empty_text_is_refused_for_embedding() {
    let ok = vec!["alpha".to_string(), "beta".to_string()];
    assert_eq!(check_embedding_batch(&ok), Ok(()));
    let bad = vec!["alpha".to_string(), String::new()];
    assert_eq!(check_embedding_batch(&bad), Err(RetrievalError::InvalidInput));
}
