//! Top-K similarity selection: keep the K entries of smallest distance,
//! ascending, with ties broken by item identifier.
use vstd::prelude::*;
use vstd::relations::*;
use vstd::seq_lib::*;

use crate::lex::{
    lemma_lex_antisymmetric, lemma_lex_reflexive, lemma_lex_total, lemma_lex_transitive, lex_le,
};
use crate::db::ItemEmbedding;
use crate::embeddings::{components, Embedding};
use crate::error::RetrievalError;
use crate::roam::BlockId;

verus! {

broadcast use vstd::seq_lib::group_to_multiset_ensures;

/// A similarity distance: the IEEE-754 bits of a non-negative, non-NaN
/// single-precision number. On such bit patterns the order of the integers
/// is the order of the numbers they encode, so distances compare as
/// integers.
#[derive(Clone, Copy, Debug, PartialEq, Eq, Structural, Hash)]
pub struct Distance {
    pub bits: u32,
}

/// The bit pattern of positive infinity, the largest admissible distance.
pub const INFINITY_BITS: u32 = 0x7F80_0000;

/// The bit pattern of negative zero.
pub const NEGATIVE_ZERO_BITS: u32 = 0x8000_0000;

/// Why a number is not a distance.
#[derive(Clone, Copy, Debug, PartialEq, Eq, Structural)]
pub enum DistanceError {
    /// The number is below zero.
    Negative,
    /// The number is NaN.
    NotANumber,
}

/// The magnitude of a single-precision bit pattern: all but the sign bit.
pub open spec fn magnitude(bits: u32) -> u32 {
    if bits >= NEGATIVE_ZERO_BITS {
        (bits - NEGATIVE_ZERO_BITS) as u32
    } else {
        bits
    }
}

/// A single-precision bit pattern encodes NaN.
pub open spec fn is_nan_bits(bits: u32) -> bool {
    magnitude(bits) > INFINITY_BITS
}

impl Distance {
    /// The bits encode a non-negative, non-NaN number: zero up to positive
    /// infinity.
    pub open spec fn is_valid(self) -> bool {
        self.bits <= INFINITY_BITS
    }

    /// Builds a distance from the bits of a single-precision number. Negative
    /// zero counts as zero; any other negative number and NaN are refused.
    pub fn try_from_bits(bits: u32) -> (r: Result<Distance, DistanceError>)
        ensures
            bits <= INFINITY_BITS ==> r == Ok::<Distance, DistanceError>(Distance { bits }),
            bits == NEGATIVE_ZERO_BITS ==> r == Ok::<Distance, DistanceError>(
                Distance { bits: 0 },
            ),
            is_nan_bits(bits) ==> r == Err::<Distance, DistanceError>(DistanceError::NotANumber),
            bits > NEGATIVE_ZERO_BITS && !is_nan_bits(bits) ==> r == Err::<
                Distance,
                DistanceError,
            >(DistanceError::Negative),
            r is Ok ==> r->Ok_0.is_valid(),
    {
        let magnitude = if bits >= NEGATIVE_ZERO_BITS {
            bits - NEGATIVE_ZERO_BITS
        } else {
            bits
        };
        if magnitude > INFINITY_BITS {
            Err(DistanceError::NotANumber)
        } else if bits == NEGATIVE_ZERO_BITS {
            Ok(Distance { bits: 0 })
        } else if bits > NEGATIVE_ZERO_BITS {
            Err(DistanceError::Negative)
        } else {
            Ok(Distance { bits })
        }
    }

    /// The bits of the single-precision number this distance holds.
    pub fn to_bits(&self) -> (r: u32)
        ensures
            r == self.bits,
    {
        self.bits
    }

    /// Whether this distance is strictly smaller than `other`.
    pub fn lt(&self, other: &Distance) -> (r: bool)
        ensures
            r == (self.bits < other.bits),
    {
        self.bits < other.bits
    }
}

/// A search hit: its distance to the query and the item it belongs to.
pub type Entry = (Distance, BlockId);

/// Entries order by distance, then by item identifier.
pub open spec fn entry_le(a: Entry, b: Entry) -> bool {
    a.0.bits < b.0.bits || (a.0.bits == b.0.bits && lex_le(a.1.key(), b.1.key()))
}

/// `entry_le` as a relation value.
pub open spec fn entry_order() -> spec_fn(Entry, Entry) -> bool {
    |a: Entry, b: Entry| entry_le(a, b)
}

/// The `k` smallest entries of `s`, ascending: the first `k` of `s` sorted.
pub open spec fn k_smallest(s: Seq<Entry>, k: nat) -> Seq<Entry> {
    let sorted = s.sort_by(entry_order());
    if k < s.len() {
        sorted.take(k as int)
    } else {
        sorted
    }
}

/// The entry order is a total order.
pub proof fn lemma_entry_order_total()
    ensures
        total_ordering(entry_order()),
{
    assert forall|a: Entry| #[trigger] entry_order()(a, a) by {
        lemma_lex_reflexive(a.1.key());
    };
    assert forall|a: Entry, b: Entry|
        #![trigger entry_order()(a, b), entry_order()(b, a)]
        entry_order()(a, b) && entry_order()(b, a) implies a == b by {
        lemma_lex_antisymmetric(a.1.key(), b.1.key());
        BlockId::lemma_key_injective(a.1, b.1);
    };
    assert forall|a: Entry, b: Entry, c: Entry|
        #![trigger entry_order()(a, b), entry_order()(b, c)]
        entry_order()(a, b) && entry_order()(b, c) implies entry_order()(a, c) by {
        if a.0.bits == b.0.bits && b.0.bits == c.0.bits {
            lemma_lex_transitive(a.1.key(), b.1.key(), c.1.key());
        }
    };
    assert forall|a: Entry, b: Entry|
        #![trigger entry_order()(a, b)]
        entry_order()(a, b) || entry_order()(b, a) by {
        lemma_lex_total(a.1.key(), b.1.key());
    };
}

/// Where `x` goes in the sorted sequence `s`: after every entry that is no
/// greater than it.
pub open spec fn insert_position(s: Seq<Entry>, x: Entry) -> nat
    decreases s.len(),
{
    if s.len() == 0 {
        0
    } else if entry_le(s[0], x) {
        1 + insert_position(s.drop_first(), x)
    } else {
        0
    }
}

proof fn lemma_insert_position(s: Seq<Entry>, x: Entry)
    requires
        sorted_by(s, entry_order()),
    ensures
        insert_position(s, x) <= s.len(),
        forall|j: int| 0 <= j < insert_position(s, x) ==> entry_le(#[trigger] s[j], x),
        forall|j: int| insert_position(s, x) <= j < s.len() ==> !entry_le(#[trigger] s[j], x),
    decreases s.len(),
{
    lemma_entry_order_total();
    if s.len() > 0 {
        let t = s.drop_first();
        assert(sorted_by(t, entry_order()));
        lemma_insert_position(t, x);
        if entry_le(s[0], x) {
            assert forall|j: int| 0 <= j < insert_position(s, x) implies entry_le(
                #[trigger] s[j],
                x,
            ) by {
                if j > 0 {
                    assert(s[j] == t[j - 1]);
                }
            };
            assert forall|j: int| insert_position(s, x) <= j < s.len() implies !entry_le(
                #[trigger] s[j],
                x,
            ) by {
                assert(s[j] == t[j - 1]);
            };
        } else {
            assert forall|j: int| 0 <= j < s.len() implies !entry_le(#[trigger] s[j], x) by {
                assert(entry_order()(s[0], s[j]));
                if entry_le(s[j], x) {
                    assert(entry_order()(s[j], x));
                }
            };
        }
    }
}

/// Inserting at a position that splits the entries no greater than `x`
/// from those greater keeps a sequence sorted.
proof fn lemma_insert_sorted(s: Seq<Entry>, x: Entry, p: int)
    requires
        sorted_by(s, entry_order()),
        0 <= p <= s.len(),
        forall|j: int| 0 <= j < p ==> entry_le(#[trigger] s[j], x),
        forall|j: int| p <= j < s.len() ==> !entry_le(#[trigger] s[j], x),
    ensures
        sorted_by(s.insert(p, x), entry_order()),
{
    lemma_entry_order_total();
    let t = s.insert(p, x);
    assert forall|i: int, j: int| 0 <= i < j < t.len() implies #[trigger] entry_order()(
        t[i],
        t[j],
    ) by {
        if i < p && j == p {
            assert(entry_le(s[i], x));
        } else if i == p && j > p {
            assert(!entry_le(s[j - 1], x));
            assert(entry_order()(s[j - 1], x) || entry_order()(x, s[j - 1]));
        } else if i < p && j > p {
            assert(entry_order()(s[i], s[j - 1]));
        } else if j < p {
            assert(entry_order()(s[i], s[j]));
        } else {
            assert(entry_order()(s[i - 1], s[j - 1]));
        }
    };
}

/// Sorting `s` with one more entry inserts that entry into `s` sorted.
proof fn lemma_sort_push(s: Seq<Entry>, x: Entry)
    ensures
        s.push(x).sort_by(entry_order()) == s.sort_by(entry_order()).insert(
            insert_position(s.sort_by(entry_order()), x) as int,
            x,
        ),
        insert_position(s.sort_by(entry_order()), x) <= s.len(),
{
    lemma_entry_order_total();
    let sorted = s.sort_by(entry_order());
    s.lemma_sort_by_ensures(entry_order());
    s.push(x).lemma_sort_by_ensures(entry_order());
    lemma_insert_position(sorted, x);
    assert(sorted.len() == s.to_multiset().len());
    let p = insert_position(sorted, x) as int;
    lemma_insert_sorted(sorted, x, p);
    lemma_sorted_unique(s.push(x).sort_by(entry_order()), sorted.insert(p, x), entry_order());
}

/// One step of the selection: with the `k` smallest entries of `s` in hand,
/// inserting `x` where it belongs and dropping the largest beyond `k` gives
/// the `k` smallest entries of `s` followed by `x`.
proof fn lemma_select_step(s: Seq<Entry>, x: Entry, k: nat, buf: Seq<Entry>, p: int)
    requires
        buf == k_smallest(s, k),
        0 <= p <= buf.len(),
        forall|j: int| 0 <= j < p ==> entry_le(#[trigger] buf[j], x),
        p < buf.len() ==> !entry_le(buf[p], x),
    ensures
        ({
            let grown = buf.insert(p, x);
            k_smallest(s.push(x), k) == if grown.len() > k {
                grown.drop_last()
            } else {
                grown
            }
        }),
{
    lemma_entry_order_total();
    let sorted = s.sort_by(entry_order());
    s.lemma_sort_by_ensures(entry_order());
    assert(sorted.len() == s.to_multiset().len());
    lemma_sort_push(s, x);
    lemma_insert_position(sorted, x);
    let pos = insert_position(sorted, x) as int;
    let all = sorted.insert(pos, x);
    let grown = buf.insert(p, x);
    if p > 0 {
        assert(entry_le(buf[p - 1], x));
        assert(buf[p - 1] == sorted[p - 1]);
    }
    assert(p <= pos);
    if p < buf.len() {
        assert(buf[p] == sorted[p]);
        assert(p >= pos);
    }
    if k >= s.len() + 1 {
        assert(grown =~= all);
    } else {
        assert(grown.drop_last() =~= all.take(k as int));
    }
}

/// The selection is sorted.
proof fn lemma_k_smallest_sorted(s: Seq<Entry>, k: nat)
    ensures
        sorted_by(k_smallest(s, k), entry_order()),
{
    lemma_entry_order_total();
    s.lemma_sort_by_ensures(entry_order());
    let sorted = s.sort_by(entry_order());
    assert(sorted.len() == s.to_multiset().len());
    let r = k_smallest(s, k);
    assert forall|i: int, j: int| 0 <= i < j < r.len() implies #[trigger] entry_order()(
        r[i],
        r[j],
    ) by {
        assert(r[i] == sorted[i] && r[j] == sorted[j]);
    };
}

/// Where `x` goes in the sorted sequence `kept`: the first position whose
/// entry is greater than `x`, found by binary search.
fn insert_position_exec(kept: &Vec<Entry>, x: &Entry) -> (p: usize)
    requires
        sorted_by(kept@, entry_order()),
    ensures
        p <= kept@.len(),
        forall|j: int| 0 <= j < p ==> entry_le(#[trigger] kept@[j], *x),
        p < kept@.len() ==> !entry_le(kept@[p as int], *x),
{
    proof {
        lemma_entry_order_total();
    }
    let mut lo: usize = 0;
    let mut hi: usize = kept.len();
    while lo < hi
        invariant
            lo <= hi <= kept@.len(),
            sorted_by(kept@, entry_order()),
            total_ordering(entry_order()),
            forall|j: int| 0 <= j < lo ==> entry_le(#[trigger] kept@[j], *x),
            forall|j: int| hi <= j < kept@.len() ==> !entry_le(#[trigger] kept@[j], *x),
        decreases hi - lo,
    {
        let mid = lo + (hi - lo) / 2;
        if entry_le_exec(&kept[mid], x) {
            assert forall|j: int| 0 <= j < mid + 1 implies entry_le(#[trigger] kept@[j], *x) by {
                if j < mid {
                    assert(entry_order()(kept@[j], kept@[mid as int]));
                    assert(entry_order()(kept@[mid as int], *x));
                }
            };
            lo = mid + 1;
        } else {
            assert forall|j: int| mid <= j < kept@.len() implies !entry_le(#[trigger] kept@[j], *x) by {
                if j > mid {
                    assert(entry_order()(kept@[mid as int], kept@[j]));
                    if entry_le(kept@[j], *x) {
                        assert(entry_order()(kept@[j], *x));
                    }
                }
            };
            hi = mid;
        }
    }
    lo
}

/// The `k` entries of `scored` with the smallest distance, ascending by
/// distance and then by item identifier. A single pass keeps at most `k`
/// entries, sorted, at any time: each new entry is placed by binary search,
/// and once `k` are kept an entry no smaller than the largest is passed over.
pub fn select_top_k(scored: &Vec<Entry>, k: usize) -> (r: Vec<Entry>)
    requires
        forall|i: int| 0 <= i < scored@.len() ==> (#[trigger] scored@[i]).0.is_valid(),
    ensures
        r@ == k_smallest(scored@, k as nat),
{
    let mut kept: Vec<Entry> = Vec::new();
    let mut i: usize = 0;
    proof {
        let none = scored@.take(0);
        lemma_entry_order_total();
        none.lemma_sort_by_ensures(entry_order());
        assert(none.sort_by(entry_order()).len() == none.to_multiset().len());
        assert(kept@ =~= k_smallest(none, k as nat));
    }
    while i < scored.len()
        invariant
            i <= scored.len(),
            kept@ == k_smallest(scored@.take(i as int), k as nat),
        decreases scored.len() - i,
    {
        let x = scored[i];
        proof {
            lemma_k_smallest_sorted(scored@.take(i as int), k as nat);
        }
        let p = insert_position_exec(&kept, &x);
        proof {
            lemma_select_step(scored@.take(i as int), x, k as nat, kept@, p as int);
            assert(scored@.take(i as int).push(x) =~= scored@.take(i + 1));
        }
        if p == kept.len() && kept.len() >= k {
            assert(kept@.insert(p as int, x).drop_last() =~= kept@);
        } else {
            kept.insert(p, x);
            if kept.len() > k {
                kept.pop();
            }
        }
        i += 1;
    }
    assert(scored@.take(scored.len() as int) =~= scored@);
    kept
}

/// Whether entry `a` orders no later than entry `b`.
pub fn entry_le_exec(a: &Entry, b: &Entry) -> (r: bool)
    ensures
        r == entry_le(*a, *b),
{
    if a.0.bits != b.0.bits {
        a.0.bits < b.0.bits
    } else {
        a.1.le(&b.1)
    }
}

/// The selected entries ascend by distance, they are drawn from the
/// input, there are `k` of them or all of the input if it is shorter, and
/// the last of them is no farther than any entry left out.
pub proof fn lemma_top_k_bounds(s: Seq<Entry>, k: nat)
    requires
        k >= 1,
    ensures
        ({
            let r = k_smallest(s, k);
            &&& r.len() == if k < s.len() {
                k
            } else {
                s.len()
            }
            &&& forall|i: int, j: int| 0 <= i < j < r.len() ==> r[i].0.bits <= r[j].0.bits
            &&& r.to_multiset().subset_of(s.to_multiset())
            &&& forall|e: Entry|
                s.to_multiset().count(e) > r.to_multiset().count(e) ==> r.len() > 0
                    && r.last().0.bits <= e.0.bits
        }),
{
    lemma_entry_order_total();
    let sorted = s.sort_by(entry_order());
    s.lemma_sort_by_ensures(entry_order());
    assert(sorted.len() == s.to_multiset().len());
    let r = k_smallest(s, k);
    assert forall|i: int, j: int| 0 <= i < j < r.len() implies r[i].0.bits <= r[j].0.bits by {
        assert(entry_order()(sorted[i], sorted[j]));
    };
    if k < s.len() {
        let rest = sorted.skip(k as int);
        assert(sorted =~= r + rest);
        lemma_multiset_commutative(r, rest);
        assert forall|e: Entry|
            s.to_multiset().count(e) > r.to_multiset().count(e) implies r.len() > 0
            && r.last().0.bits <= e.0.bits by {
            assert(rest.to_multiset().count(e) > 0);
            assert(rest.contains(e));
            let j = choose|j: int| 0 <= j < rest.len() && rest[j] == e;
            assert(entry_order()(sorted[k - 1], sorted[k + j]));
        };
    }
}

/// The selection depends only on which entries are given, not on the
/// order in which they are scanned.
pub proof fn lemma_top_k_order_invariant(s1: Seq<Entry>, s2: Seq<Entry>, k: nat)
    requires
        s1.to_multiset() == s2.to_multiset(),
    ensures
        k_smallest(s1, k) == k_smallest(s2, k),
{
    lemma_entry_order_total();
    s1.lemma_sort_by_ensures(entry_order());
    s2.lemma_sort_by_ensures(entry_order());
    lemma_sorted_unique(s1.sort_by(entry_order()), s2.sort_by(entry_order()), entry_order());
    assert(s1.len() == s1.to_multiset().len());
    assert(s2.len() == s2.to_multiset().len());
}

/// The number of results a search returns unless told otherwise.
pub const DEFAULT_TOP_K: usize = 32;

/// Which distance a search ranks by. The metrics themselves are computed on
/// floating-point components, outside this library.
#[derive(Clone, Copy, Debug, PartialEq, Eq, Structural)]
pub enum DistanceMetric {
    /// One minus the cosine of the angle between the vectors, in [0, 1].
    Cosine,
    /// The Euclidean length of the difference of the vectors.
    Euclidean,
}

/// A similarity query: the query vector, how many results to keep, and the
/// metric that ranks them.
pub struct SimilaritySearch {
    pub query: Embedding,
    pub top_k: usize,
    pub distance_metric: DistanceMetric,
}

impl SimilaritySearch {
    /// A search for `query` keeping the default number of results, ranked by
    /// cosine distance.
    pub fn new(query: Embedding) -> (r: SimilaritySearch)
        ensures
            r.query == query,
            r.top_k == DEFAULT_TOP_K,
            r.distance_metric == DistanceMetric::Cosine,
    {
        SimilaritySearch { query, top_k: DEFAULT_TOP_K, distance_metric: DistanceMetric::Cosine }
    }

    /// The same search, keeping `top_k` results.
    pub fn with_top_k(self, top_k: usize) -> (r: SimilaritySearch)
        ensures
            r.query == self.query,
            r.top_k == top_k,
            r.distance_metric == self.distance_metric,
    {
        SimilaritySearch { top_k, ..self }
    }

    /// The same search, ranked by `distance_metric`.
    pub fn with_distance_metric(self, distance_metric: DistanceMetric) -> (r: SimilaritySearch)
        ensures
            r.query == self.query,
            r.top_k == self.top_k,
            r.distance_metric == distance_metric,
    {
        SimilaritySearch { distance_metric, ..self }
    }

    /// Checks the stored vectors before any distance is computed: the store
    /// must hold a vector, `k` must be at least one, and every stored vector
    /// must have the query's dimensionality.
    pub fn check_store(&self, stored: &Vec<ItemEmbedding>) -> (r: Result<(), RetrievalError>)
        ensures
            stored@.len() == 0 ==> r == Err::<(), RetrievalError>(RetrievalError::EmptyResult),
            stored@.len() > 0 && self.top_k == 0 ==> r == Err::<(), RetrievalError>(
                RetrievalError::InvalidInput,
            ),
            stored@.len() > 0 && self.top_k >= 1 ==> (r is Ok <==> dimensions_match(
                self.query,
                stored@,
            )),
            stored@.len() > 0 && r is Err ==> r == Err::<(), RetrievalError>(
                RetrievalError::InvalidInput,
            ),
    {
        if stored.len() == 0 {
            return Err(RetrievalError::EmptyResult);
        }
        if self.top_k == 0 {
            return Err(RetrievalError::InvalidInput);
        }
        let dims = self.query.dimensionality();
        let mut i: usize = 0;
        while i < stored.len()
            invariant
                i <= stored@.len(),
                dims == components(self.query@.len()),
                forall|j: int|
                    0 <= j < i ==> components(#[trigger] stored@[j].embedding@.len()) == dims,
            decreases stored.len() - i,
        {
            if stored[i].embedding.dimensionality() != dims {
                return Err(RetrievalError::InvalidInput);
            }
            i += 1;
        }
        Ok(())
    }

    /// Runs the search: `distances[i]` is the metric's distance from the
    /// query to `stored[i]`. Fails on an empty store, on `k` below one, and
    /// on a stored vector whose dimensionality differs from the query's;
    /// otherwise returns the `top_k` nearest entries, ascending by distance
    /// and then by item identifier.
    pub fn execute(&self, stored: &Vec<ItemEmbedding>, distances: &Vec<Distance>) -> (r: Result<
        Vec<Entry>,
        RetrievalError,
    >)
        requires
            distances@.len() == stored@.len(),
            forall|i: int| 0 <= i < distances@.len() ==> (#[trigger] distances@[i]).is_valid(),
        ensures
            stored@.len() == 0 ==> r == Err::<Vec<Entry>, RetrievalError>(
                RetrievalError::EmptyResult,
            ),
            stored@.len() > 0 && self.top_k == 0 ==> r == Err::<Vec<Entry>, RetrievalError>(
                RetrievalError::InvalidInput,
            ),
            stored@.len() > 0 && self.top_k >= 1 && !dimensions_match(self.query, stored@) ==> r
                == Err::<Vec<Entry>, RetrievalError>(RetrievalError::InvalidInput),
            stored@.len() > 0 && self.top_k >= 1 && dimensions_match(self.query, stored@) ==> r is Ok
                && r->Ok_0@ == k_smallest(scored_entries(stored@, distances@), self.top_k as nat),
    {
        match self.check_store(stored) {
            Ok(()) => {},
            Err(e) => {
                return Err(e);
            },
        }
        let mut scored: Vec<Entry> = Vec::new();
        let mut i: usize = 0;
        while i < stored.len()
            invariant
                i <= stored@.len(),
                distances@.len() == stored@.len(),
                forall|j: int| 0 <= j < distances@.len() ==> (#[trigger] distances@[j]).is_valid(),
                scored@ == scored_entries(stored@, distances@).take(i as int),
            decreases stored.len() - i,
        {
            scored.push((distances[i], stored[i].item_id));
            assert(scored_entries(stored@, distances@).take(i + 1) =~= scored_entries(
                stored@,
                distances@,
            ).take(i as int).push((distances@[i as int], stored@[i as int].item_id)));
            i += 1;
        }
        assert(scored@ =~= scored_entries(stored@, distances@));
        Ok(select_top_k(&scored, self.top_k))
    }
}

/// Every stored vector has the query's dimensionality.
pub open spec fn dimensions_match(query: Embedding, stored: Seq<ItemEmbedding>) -> bool {
    forall|i: int|
        0 <= i < stored.len() ==> components(#[trigger] stored[i].embedding@.len()) == components(
            query@.len(),
        )
}

/// The entries of a search: the `i`-th stored item at the `i`-th distance.
pub open spec fn scored_entries(stored: Seq<ItemEmbedding>, distances: Seq<Distance>) -> Seq<Entry> {
    Seq::new(stored.len(), |i: int| (distances[i], stored[i].item_id))
}

} // verus!
