//! Embedding vectors, held as the little-endian bytes of their
//! single-precision components.
use vstd::prelude::*;

use crate::error::RetrievalError;

verus! {

/// An embedding vector: four little-endian bytes per component.
#[derive(Clone, Debug, PartialEq)]
pub struct Embedding {
    bytes: Vec<u8>,
}

impl View for Embedding {
    type V = Seq<u8>;

    closed spec fn view(&self) -> Seq<u8> {
        self.bytes@
    }
}

/// The number of components that `n` bytes hold.
pub open spec fn components(n: nat) -> nat {
    n / 4
}

impl Embedding {
    /// Reads an embedding from bytes, four per component; a trailing
    /// partial component is dropped.
    pub fn from_bytes(bytes: &[u8]) -> (r: Embedding)
        ensures
            r@ == bytes@.take((bytes@.len() - bytes@.len() % 4) as int),
    {
        let whole = bytes.len() - bytes.len() % 4;
        let mut out: Vec<u8> = Vec::new();
        let mut i: usize = 0;
        while i < whole
            invariant
                whole <= bytes@.len(),
                i <= whole,
                out@ == bytes@.take(i as int),
            decreases whole - i,
        {
            out.push(bytes[i]);
            assert(bytes@.take(i + 1) =~= bytes@.take(i as int).push(bytes@[i as int]));
            i += 1;
        }
        Embedding { bytes: out }
    }

    /// The embedding's bytes, four per component.
    pub fn to_bytes(&self) -> (r: Vec<u8>)
        ensures
            r@ == self@,
    {
        self.bytes.clone()
    }

    /// The number of components.
    pub fn dimensionality(&self) -> (r: usize)
        ensures
            r == components(self@.len()),
    {
        self.bytes.len() / 4
    }
}

/// Checks a batch of texts before it is sent to be embedded: an empty text
/// is refused.
pub fn check_embedding_batch(sources: &Vec<String>) -> (r: Result<(), RetrievalError>)
    ensures
        r is Ok <==> forall|i: int| 0 <= i < sources@.len() ==> (#[trigger] sources@[i])@.len() > 0,
        r is Err ==> r == Err::<(), RetrievalError>(RetrievalError::InvalidInput),
{
    let mut i: usize = 0;
    while i < sources.len()
        invariant
            i <= sources@.len(),
            forall|j: int| 0 <= j < i ==> (#[trigger] sources@[j])@.len() > 0,
        decreases sources.len() - i,
    {
        if sources[i].as_str().is_empty() {
            return Err(RetrievalError::InvalidInput);
        }
        i += 1;
    }
    Ok(())
}

} // verus!
