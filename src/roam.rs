//! Note collections as exported from the outliner: pages, nested items, and
//! the nine-character block identifiers that name items.
use vstd::prelude::*;
use vstd::string::*;

use crate::lex::{lex_le, lemma_lex_from};

verus! {

/// The identifier of one item: nine bytes, written as nine ASCII characters.
#[derive(Clone, Copy, Debug, Eq, Hash)]
pub struct BlockId {
    pub bytes: [u8; 9],
}

impl PartialEq for BlockId {
    fn eq(&self, other: &BlockId) -> (r: bool) {
        let mut i: usize = 0;
        while i < 9
            invariant
                0 <= i <= 9,
                self.bytes@.len() == 9,
                other.bytes@.len() == 9,
                forall|j: int| 0 <= j < i ==> self.bytes@[j] == other.bytes@[j],
            decreases 9 - i,
        {
            if self.bytes[i] != other.bytes[i] {
                return false;
            }
            i += 1;
        }
        assert(self.bytes =~= other.bytes);
        true
    }
}

impl vstd::std_specs::cmp::PartialEqSpecImpl for BlockId {
    open spec fn obeys_eq_spec() -> bool {
        true
    }

    open spec fn eq_spec(&self, other: &BlockId) -> bool {
        self == other
    }
}

/// Why a text is not a block identifier.
#[derive(Clone, Copy, Debug, PartialEq, Eq, Structural)]
pub enum BlockIdError {
    /// The text does not hold exactly nine characters.
    WrongLength,
    /// One of the nine characters lies outside ASCII.
    NotAscii,
}

/// A text names a block exactly when it is nine ASCII characters.
pub open spec fn is_block_id_text(s: Seq<char>) -> bool {
    s.len() == 9 && forall|i: int| 0 <= i < 9 ==> (s[i] as u32) < 128
}

/// The characters of a block identifier: one per byte.
pub open spec fn block_id_chars(b: Seq<u8>) -> Seq<char> {
    b.map_values(|x: u8| x as char)
}

/// Relies on String::push: the character is appended at the end.
#[verifier::external_body]
fn push_char(s: &mut String, c: char)
    ensures
        final(s)@ == old(s)@.push(c),
{
    s.push(c)
}

impl BlockId {
    /// The identifier as a sequence of integers, for ordering.
    pub open spec fn key(self) -> Seq<int> {
        self.bytes@.map_values(|x: u8| x as int)
    }

    /// Two identifiers with the same key are the same identifier.
    pub proof fn lemma_key_injective(a: BlockId, b: BlockId)
        requires
            a.key() == b.key(),
        ensures
            a == b,
    {
        assert(a.bytes@.len() == 9 && b.bytes@.len() == 9);
        assert forall|i: int| 0 <= i < 9 implies a.bytes[i] == b.bytes[i] by {
            assert(a.key()[i] == b.key()[i]);
            assert(a.key()[i] == a.bytes@[i] as int);
            assert(b.key()[i] == b.bytes@[i] as int);
        };
        assert(a.bytes =~= b.bytes);
    }

    /// Reads an identifier from its text form.
    pub fn parse(s: &str) -> (r: Result<BlockId, BlockIdError>)
        ensures
            s@.len() != 9 ==> r == Err::<BlockId, BlockIdError>(BlockIdError::WrongLength),
            s@.len() == 9 && !is_block_id_text(s@) ==> r == Err::<BlockId, BlockIdError>(
                BlockIdError::NotAscii,
            ),
            is_block_id_text(s@) ==> r is Ok && block_id_chars(r->Ok_0.bytes@) == s@,
    {
        let n = s.unicode_len();
        if n != 9 {
            return Err(BlockIdError::WrongLength);
        }
        let mut bytes: [u8; 9] = [0u8; 9];
        let mut i: usize = 0;
        while i < 9
            invariant
                0 <= i <= 9,
                s@.len() == 9,
                bytes@.len() == 9,
                forall|j: int| 0 <= j < i ==> (s@[j] as u32) < 128,
                forall|j: int| 0 <= j < i ==> bytes@[j] as char == s@[j],
            decreases 9 - i,
        {
            let c = s.get_char(i);
            let code = c as u32;
            if code >= 128 {
                return Err(BlockIdError::NotAscii);
            }
            bytes[i] = code as u8;
            assert((code as u8) as char == c) by {
                assert(code < 128);
            };
            i += 1;
        }
        let id = BlockId { bytes };
        assert(block_id_chars(id.bytes@) =~= s@);
        Ok(id)
    }

    /// The identifier's text form.
    pub fn to_text(&self) -> (r: String)
        ensures
            r@ == block_id_chars(self.bytes@),
    {
        let mut out = String::new();
        let mut i: usize = 0;
        while i < 9
            invariant
                0 <= i <= 9,
                self.bytes@.len() == 9,
                out@ == block_id_chars(self.bytes@).take(i as int),
            decreases 9 - i,
        {
            push_char(&mut out, self.bytes[i] as char);
            assert(block_id_chars(self.bytes@).take(i + 1) =~= block_id_chars(self.bytes@).take(
                i as int,
            ).push(self.bytes@[i as int] as char));
            i += 1;
        }
        assert(block_id_chars(self.bytes@).take(9) =~= block_id_chars(self.bytes@));
        out
    }

    /// Whether this identifier sorts no later than `other`, byte by byte.
    pub fn le(&self, other: &BlockId) -> (r: bool)
        ensures
            r == lex_le(self.key(), other.key()),
    {
        let mut i: usize = 0;
        while i < 9
            invariant
                0 <= i <= 9,
                self.bytes@.len() == 9,
                other.bytes@.len() == 9,
                forall|j: int| 0 <= j < i ==> self.key()[j] == other.key()[j],
            decreases 9 - i,
        {
            if self.bytes[i] != other.bytes[i] {
                proof {
                    lemma_lex_from(self.key(), other.key(), i as int);
                }
                return self.bytes[i] < other.bytes[i];
            }
            i += 1;
        }
        proof {
            lemma_lex_from(self.key(), other.key(), 9);
        }
        true
    }
}

impl std::str::FromStr for BlockId {
    type Err = BlockIdError;

    fn from_str(s: &str) -> Result<BlockId, BlockIdError> {
        BlockId::parse(s)
    }
}

/// A whole export: every page of the collection.
pub struct Export {
    pub pages: Vec<Page>,
}

/// One page of an export, with its top-level items in authoring order.
pub struct Page {
    pub title: String,
    pub edit_time: u64,
    pub children: Vec<Item>,
    pub create_time: Option<u64>,
    pub create_email: Option<String>,
    pub edit_email: Option<String>,
}

/// One item of an export, with its child items in authoring order.
pub struct Item {
    pub uid: BlockId,
    pub string: String,
    pub create_time: Option<u64>,
    pub edit_time: Option<u64>,
    pub children: Vec<Item>,
    pub edit_email: Option<String>,
    pub create_email: Option<String>,
}

} // verus!
