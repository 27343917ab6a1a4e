//! The result forest: search hits grouped by page, widened to every
//! ancestor of every hit, and rebuilt as pruned, ordered copies of the
//! stored trees.
use vstd::prelude::*;

use crate::db::{
    ancestor_path, ancestors, get_ancestor_ids, ids_unique, lemma_ancestor_step, lemma_find_unique,
    lemma_path_found, lemma_path_length, lemma_path_members_resolve, lemma_path_more_fuel,
    owner_view, walk_limit, Owner, OwnerView, RoamItem,
};
use crate::error::RetrievalError;
use crate::lex::{
    lemma_lex_antisymmetric, lemma_lex_total, lemma_lex_transitive, lemma_text_key_injective, lex_le,
    text_key, text_le,
};
use crate::roam::BlockId;
use crate::search::Distance;
use vstd::relations::{sorted_by, total_ordering};
use vstd::seq_lib::lemma_sorted_unique;

verus! {

/// What the forest holds for one page.
pub struct ResultPageView {
    /// The smallest distance of any hit on the page.
    pub min_distance: Distance,
    /// Every hit on the page and every ancestor of every hit.
    pub included: Set<BlockId>,
    /// The distance of each hit; ancestors that are not hits have none.
    pub distances: Map<BlockId, Distance>,
}

/// The smaller of two distances.
pub open spec fn min_distance(a: Distance, b: Distance) -> Distance {
    if b.bits < a.bits {
        b
    } else {
        a
    }
}

/// The forest `f` after a hit on `id` at distance `d`, whose page is
/// `title` and whose path from the page's root item is `path`.
pub open spec fn add_hit(
    f: Map<Seq<char>, ResultPageView>,
    title: Seq<char>,
    path: Seq<BlockId>,
    id: BlockId,
    d: Distance,
) -> Map<Seq<char>, ResultPageView> {
    let base = if f.contains_key(title) {
        f[title]
    } else {
        ResultPageView { min_distance: d, included: Set::empty(), distances: Map::empty() }
    };
    f.insert(
        title,
        ResultPageView {
            min_distance: min_distance(base.min_distance, d),
            included: base.included.union(path.to_set()),
            distances: base.distances.insert(id, d),
        },
    )
}

/// The forest `f` after a hit on `id` at distance `d`, resolved against
/// `store`; a hit that cannot be resolved leaves the forest as it was.
pub open spec fn apply_hit(
    store: Seq<RoamItem>,
    f: Map<Seq<char>, ResultPageView>,
    id: BlockId,
    d: Distance,
) -> Map<Seq<char>, ResultPageView> {
    match ancestors(store, id) {
        Ok((title, path)) => add_hit(f, title, path, id, d),
        Err(_) => f,
    }
}

/// Adding the same hit twice leaves the forest as adding it once.
pub proof fn lemma_add_hit_idempotent(
    store: Seq<RoamItem>,
    f: Map<Seq<char>, ResultPageView>,
    id: BlockId,
    d: Distance,
)
    ensures
        apply_hit(store, apply_hit(store, f, id, d), id, d) == apply_hit(store, f, id, d),
{
    match ancestors(store, id) {
        Ok((title, path)) => {
            let once = add_hit(f, title, path, id, d);
            let twice = add_hit(once, title, path, id, d);
            let p = once[title];
            assert(p.included.union(path.to_set()) =~= p.included);
            assert(p.distances.insert(id, d) =~= p.distances);
            assert(twice =~= once);
        },
        Err(_) => {},
    }
}

/// Two hits give the same forest whichever is added first, unless they
/// are hits on the same item at different distances (the later distance is
/// the one kept).
pub proof fn lemma_add_hit_commutes(
    store: Seq<RoamItem>,
    f: Map<Seq<char>, ResultPageView>,
    id1: BlockId,
    d1: Distance,
    id2: BlockId,
    d2: Distance,
)
    requires
        id1 != id2 || d1 == d2,
    ensures
        apply_hit(store, apply_hit(store, f, id1, d1), id2, d2) == apply_hit(
            store,
            apply_hit(store, f, id2, d2),
            id1,
            d1,
        ),
{
    match (ancestors(store, id1), ancestors(store, id2)) {
        (Ok((t1, p1)), Ok((t2, p2))) => {
            let a = add_hit(add_hit(f, t1, p1, id1, d1), t2, p2, id2, d2);
            let b = add_hit(add_hit(f, t2, p2, id2, d2), t1, p1, id1, d1);
            if t1 == t2 {
                let pa = a[t1];
                let pb = b[t1];
                assert(pa.included =~= pb.included);
                assert(pa.distances =~= pb.distances);
                assert(pa.min_distance == pb.min_distance);
                assert(a =~= b);
            } else {
                assert(a =~= b);
            }
        },
        _ => {},
    }
}

/// The forest `f` after the hits of `hits`, in order.
pub open spec fn apply_hits(
    store: Seq<RoamItem>,
    f: Map<Seq<char>, ResultPageView>,
    hits: Seq<(BlockId, Distance)>,
) -> Map<Seq<char>, ResultPageView>
    decreases hits.len(),
{
    if hits.len() == 0 {
        f
    } else {
        apply_hit(store, apply_hits(store, f, hits.drop_last()), hits.last().0, hits.last().1)
    }
}

/// No item has hits at two different distances.
pub open spec fn consistent_hits(hits: Seq<(BlockId, Distance)>) -> bool {
    forall|i: int, j: int|
        0 <= i < hits.len() && 0 <= j < hits.len() && #[trigger] hits[i].0 == #[trigger] hits[j].0
            ==> hits[i].1 == hits[j].1
}

/// Moving one hit to the end of the list does not change the forest.
proof fn lemma_move_hit_last(
    store: Seq<RoamItem>,
    f: Map<Seq<char>, ResultPageView>,
    hits: Seq<(BlockId, Distance)>,
    j: int,
)
    requires
        consistent_hits(hits),
        0 <= j < hits.len(),
    ensures
        apply_hits(store, f, hits.remove(j).push(hits[j])) == apply_hits(store, f, hits),
    decreases hits.len(),
{
    let x = hits[j];
    if j == hits.len() - 1 {
        assert(hits.remove(j).push(x) =~= hits);
    } else {
        let rest = hits.drop_last();
        let y = hits.last();
        assert(consistent_hits(rest)) by {
            assert forall|a: int, b: int|
                0 <= a < rest.len() && 0 <= b < rest.len() && #[trigger] rest[a].0
                    == #[trigger] rest[b].0 implies rest[a].1 == rest[b].1 by {
                assert(hits[a] == rest[a] && hits[b] == rest[b]);
            };
        };
        assert(rest[j] == x);
        lemma_move_hit_last(store, f, rest, j);
        let moved = hits.remove(j).push(x);
        assert(moved.drop_last() =~= rest.remove(j).push(y));
        assert(moved.drop_last().drop_last() =~= rest.remove(j));
        assert(rest.remove(j).push(x).drop_last() =~= rest.remove(j));
        let base = apply_hits(store, f, rest.remove(j));
        assert(hits[hits.len() - 1] == y);
        if x.0 == y.0 {
            assert(x.1 == y.1);
        }
        lemma_add_hit_commutes(store, base, y.0, y.1, x.0, x.1);
        assert(moved.last() == x);
        assert(apply_hits(store, f, moved) == apply_hit(
            store,
            apply_hits(store, f, rest.remove(j).push(y)),
            x.0,
            x.1,
        ));
        assert(apply_hits(store, f, rest.remove(j).push(y)) == apply_hit(store, base, y.0, y.1));
        assert(apply_hits(store, f, rest.remove(j).push(x)) == apply_hit(store, base, x.0, x.1));
        assert(apply_hits(store, f, hits) == apply_hit(store, apply_hits(store, f, rest), y.0, y.1));
    }
}

/// Hits give the same forest in whatever order they are added, as long as
/// no item has hits at two different distances.
pub proof fn lemma_hit_order_irrelevant(
    store: Seq<RoamItem>,
    f: Map<Seq<char>, ResultPageView>,
    hits1: Seq<(BlockId, Distance)>,
    hits2: Seq<(BlockId, Distance)>,
)
    requires
        consistent_hits(hits1),
        hits1.to_multiset() == hits2.to_multiset(),
    ensures
        apply_hits(store, f, hits1) == apply_hits(store, f, hits2),
    decreases hits2.len(),
{
    broadcast use vstd::seq_lib::group_to_multiset_ensures;
    broadcast use vstd::multiset::group_multiset_axioms;

    assert(hits1.len() == hits1.to_multiset().len());
    assert(hits2.len() == hits2.to_multiset().len());
    if hits2.len() > 0 {
        let x = hits2.last();
        let rest2 = hits2.drop_last();
        assert(hits2 =~= rest2.push(x));
        assert(hits2.to_multiset().count(x) > 0);
        assert(hits1.contains(x));
        let j = choose|j: int| 0 <= j < hits1.len() && hits1[j] == x;
        let rest1 = hits1.remove(j);
        assert(rest1.to_multiset() =~= rest2.to_multiset());
        assert(consistent_hits(rest1)) by {
            assert forall|a: int, b: int|
                0 <= a < rest1.len() && 0 <= b < rest1.len() && #[trigger] rest1[a].0
                    == #[trigger] rest1[b].0 implies rest1[a].1 == rest1[b].1 by {
                let a1 = if a < j { a } else { a + 1 };
                let b1 = if b < j { b } else { b + 1 };
                assert(rest1[a] == hits1[a1] && rest1[b] == hits1[b1]);
            };
        };
        lemma_hit_order_irrelevant(store, f, rest1, rest2);
        lemma_move_hit_last(store, f, hits1, j);
        assert(rest1.push(x).drop_last() =~= rest1);
    }
}

/// The hits gathered so far on one page.
pub struct ResultPage {
    /// The title of the page.
    pub name: String,
    /// The smallest distance of any hit on the page.
    pub min_distance: Distance,
    /// The items to render: every hit and every ancestor of a hit.
    pub included_items: Vec<BlockId>,
    /// The distance of each hit, one entry per hit.
    pub item_distances: Vec<(BlockId, Distance)>,
}

/// No identifier appears twice among the keys of `s`.
pub open spec fn keys_unique(s: Seq<(BlockId, Distance)>) -> bool {
    forall|i: int, j: int| 0 <= i < j < s.len() ==> #[trigger] s[i].0 != #[trigger] s[j].0
}

/// The position of the entry for `id` in `s`.
pub open spec fn key_position(s: Seq<(BlockId, Distance)>, id: BlockId) -> int {
    choose|i: int| 0 <= i < s.len() && s[i].0 == id
}

/// The pairs of `s` as a map from identifier to distance.
pub open spec fn distances_view(s: Seq<(BlockId, Distance)>) -> Map<BlockId, Distance> {
    Map::new(
        |id: BlockId| exists|i: int| 0 <= i < s.len() && s[i].0 == id,
        |id: BlockId| s[key_position(s, id)].1,
    )
}

proof fn lemma_key_position(s: Seq<(BlockId, Distance)>, i: int)
    requires
        keys_unique(s),
        0 <= i < s.len(),
    ensures
        key_position(s, s[i].0) == i,
{
    let id = s[i].0;
    assert(exists|k: int| 0 <= k < s.len() && s[k].0 == id);
    let k = key_position(s, id);
    if k < i {
        assert(s[k].0 != s[i].0);
    } else if k > i {
        assert(s[i].0 != s[k].0);
    }
}

proof fn lemma_distances_update(s: Seq<(BlockId, Distance)>, k: int, d: Distance)
    requires
        keys_unique(s),
        0 <= k < s.len(),
    ensures
        keys_unique(s.update(k, (s[k].0, d))),
        distances_view(s.update(k, (s[k].0, d))) == distances_view(s).insert(s[k].0, d),
{
    let id = s[k].0;
    let t = s.update(k, (id, d));
    assert forall|i: int, j: int|
        0 <= i < j < t.len() implies #[trigger] t[i].0 != #[trigger] t[j].0 by {
        assert(s[i].0 != s[j].0);
    };
    assert forall|x: BlockId|
        #[trigger] distances_view(t).contains_key(x) == distances_view(s).insert(
            id,
            d,
        ).contains_key(x) by {
        if distances_view(s).contains_key(x) {
            let i = choose|i: int| 0 <= i < s.len() && s[i].0 == x;
            assert(t[i].0 == x);
        }
        if distances_view(t).contains_key(x) {
            let i = choose|i: int| 0 <= i < t.len() && t[i].0 == x;
            assert(s[i].0 == x);
        }
    };
    assert forall|x: BlockId| #[trigger] distances_view(t).contains_key(x) implies distances_view(
        t,
    )[x] == distances_view(s).insert(id, d)[x] by {
        let i = choose|i: int| 0 <= i < t.len() && t[i].0 == x;
        lemma_key_position(t, i);
        if x != id {
            lemma_key_position(s, i);
        }
    };
    assert(distances_view(t) =~= distances_view(s).insert(id, d));
}

proof fn lemma_distances_push(s: Seq<(BlockId, Distance)>, id: BlockId, d: Distance)
    requires
        keys_unique(s),
        forall|i: int| 0 <= i < s.len() ==> s[i].0 != id,
    ensures
        keys_unique(s.push((id, d))),
        distances_view(s.push((id, d))) == distances_view(s).insert(id, d),
{
    let t = s.push((id, d));
    assert forall|i: int, j: int|
        0 <= i < j < t.len() implies #[trigger] t[i].0 != #[trigger] t[j].0 by {
        if j < s.len() {
            assert(s[i].0 != s[j].0);
        }
    };
    assert forall|x: BlockId|
        #[trigger] distances_view(t).contains_key(x) == distances_view(s).insert(
            id,
            d,
        ).contains_key(x) by {
        if distances_view(s).contains_key(x) {
            let i = choose|i: int| 0 <= i < s.len() && s[i].0 == x;
            assert(t[i].0 == x);
        }
        assert(t[s.len() as int].0 == id);
        if distances_view(t).contains_key(x) {
            let i = choose|i: int| 0 <= i < t.len() && t[i].0 == x;
            if i < s.len() {
                assert(s[i].0 == x);
            }
        }
    };
    assert forall|x: BlockId| #[trigger] distances_view(t).contains_key(x) implies distances_view(
        t,
    )[x] == distances_view(s).insert(id, d)[x] by {
        let i = choose|i: int| 0 <= i < t.len() && t[i].0 == x;
        lemma_key_position(t, i);
        if x != id {
            lemma_key_position(s, i);
        }
    };
    assert(distances_view(t) =~= distances_view(s).insert(id, d));
}

impl ResultPage {
    /// No identifier has two distances.
    pub open spec fn wf(&self) -> bool {
        keys_unique(self.item_distances@)
    }

    pub open spec fn view(&self) -> ResultPageView {
        ResultPageView {
            min_distance: self.min_distance,
            included: self.included_items@.to_set(),
            distances: distances_view(self.item_distances@),
        }
    }

    /// Adds every identifier of `path` to the included items.
    fn include_path(&mut self, path: &std::collections::VecDeque<BlockId>)
        requires
            old(self).wf(),
        ensures
            final(self).wf(),
            final(self).name == old(self).name,
            final(self)@ == (ResultPageView {
                included: old(self)@.included.union(path@.to_set()),
                ..old(self)@
            }),
    {
        let mut j: usize = 0;
        while j < path.len()
            invariant
                j <= path@.len(),
                self.wf(),
                self.name == old(self).name,
                self.min_distance == old(self).min_distance,
                self.item_distances == old(self).item_distances,
                self.included_items@.to_set() == old(self).included_items@.to_set().union(
                    path@.take(j as int).to_set(),
                ),
            decreases path.len() - j,
        {
            let id = path[j];
            let mut present = false;
            let mut k: usize = 0;
            while k < self.included_items.len()
                invariant
                    k <= self.included_items@.len(),
                    present ==> self.included_items@.contains(id),
                decreases self.included_items.len() - k,
            {
                if self.included_items[k] == id {
                    present = true;
                }
                k += 1;
            }
            let ghost before = self.included_items@;
            if !present {
                self.included_items.push(id);
            }
            proof {
                assert(path@.take(j + 1) =~= path@.take(j as int).push(id));
                path@.take(j as int).lemma_push_to_set_commute(id);
                before.lemma_push_to_set_commute(id);
                if present {
                    assert(before.to_set().insert(id) =~= before.to_set());
                }
                assert(self.included_items@.to_set() =~= old(self).included_items@.to_set().union(
                    path@.take(j + 1).to_set(),
                ));
            }
            j += 1;
        }
        assert(path@.take(path@.len() as int) =~= path@);
    }

    /// Records `distance` as the distance of hit `id`, replacing any earlier one.
    fn set_distance(&mut self, id: BlockId, distance: Distance)
        requires
            old(self).wf(),
        ensures
            final(self).wf(),
            final(self).name == old(self).name,
            final(self)@ == (ResultPageView {
                distances: old(self)@.distances.insert(id, distance),
                ..old(self)@
            }),
    {
        let mut k: usize = 0;
        while k < self.item_distances.len()
            invariant
                *self == *old(self),
                self.wf(),
                k <= self.item_distances@.len(),
                forall|i: int| 0 <= i < k ==> self.item_distances@[i].0 != id,
            decreases self.item_distances.len() - k,
        {
            if self.item_distances[k].0 == id {
                proof {
                    lemma_distances_update(self.item_distances@, k as int, distance);
                }
                self.item_distances.set(k, (id, distance));
                return;
            }
            k += 1;
        }
        proof {
            lemma_distances_push(self.item_distances@, id, distance);
        }
        self.item_distances.push((id, distance));
    }
}

/// Hits of one query, grouped by page.
pub struct ResultForest {
    pub pages: Vec<ResultPage>,
}

/// The position of the page titled `title` in `pages`.
pub open spec fn page_position(pages: Seq<ResultPage>, title: Seq<char>) -> int {
    choose|i: int| 0 <= i < pages.len() && pages[i].name@ == title
}

/// Titles are unique and every page is well formed.
pub open spec fn pages_wf(pages: Seq<ResultPage>) -> bool {
    &&& forall|i: int, j: int|
        0 <= i < j < pages.len() ==> #[trigger] pages[i].name@ != #[trigger] pages[j].name@
    &&& forall|i: int| 0 <= i < pages.len() ==> #[trigger] pages[i].wf()
}

/// The pages as a map from title to what each holds.
pub open spec fn pages_view(pages: Seq<ResultPage>) -> Map<Seq<char>, ResultPageView> {
    Map::new(
        |t: Seq<char>| exists|i: int| 0 <= i < pages.len() && pages[i].name@ == t,
        |t: Seq<char>| pages[page_position(pages, t)].view(),
    )
}

proof fn lemma_page_position(pages: Seq<ResultPage>, i: int)
    requires
        pages_wf(pages),
        0 <= i < pages.len(),
    ensures
        page_position(pages, pages[i].name@) == i,
{
    let t = pages[i].name@;
    assert(exists|k: int| 0 <= k < pages.len() && pages[k].name@ == t);
    let k = page_position(pages, t);
    if k < i {
        assert(pages[k].name@ != pages[i].name@);
    } else if k > i {
        assert(pages[i].name@ != pages[k].name@);
    }
}

proof fn lemma_pages_update(pages: Seq<ResultPage>, k: int, page: ResultPage)
    requires
        pages_wf(pages),
        0 <= k < pages.len(),
        page.name@ == pages[k].name@,
        page.wf(),
    ensures
        pages_wf(pages.update(k, page)),
        pages_view(pages.update(k, page)) == pages_view(pages).insert(page.name@, page.view()),
{
    let t = pages.update(k, page);
    let title = page.name@;
    assert forall|i: int, j: int|
        0 <= i < j < t.len() implies #[trigger] t[i].name@ != #[trigger] t[j].name@ by {
        assert(pages[i].name@ != pages[j].name@);
    };
    assert forall|i: int| 0 <= i < t.len() implies #[trigger] t[i].wf() by {
        if i != k {
            assert(pages[i].wf());
        }
    };
    assert forall|x: Seq<char>|
        #[trigger] pages_view(t).contains_key(x) == pages_view(pages).insert(
            title,
            page.view(),
        ).contains_key(x) by {
        if pages_view(pages).contains_key(x) {
            let i = choose|i: int| 0 <= i < pages.len() && pages[i].name@ == x;
            assert(t[i].name@ == x);
        }
        if pages_view(t).contains_key(x) {
            let i = choose|i: int| 0 <= i < t.len() && t[i].name@ == x;
            assert(pages[i].name@ == x);
        }
    };
    assert forall|x: Seq<char>| #[trigger] pages_view(t).contains_key(x) implies pages_view(t)[x]
        == pages_view(pages).insert(title, page.view())[x] by {
        let i = choose|i: int| 0 <= i < t.len() && t[i].name@ == x;
        lemma_page_position(t, i);
        if x != title {
            lemma_page_position(pages, i);
        }
    };
    assert(pages_view(t) =~= pages_view(pages).insert(title, page.view()));
}

proof fn lemma_pages_push(pages: Seq<ResultPage>, page: ResultPage)
    requires
        pages_wf(pages),
        forall|i: int| 0 <= i < pages.len() ==> pages[i].name@ != page.name@,
        page.wf(),
    ensures
        pages_wf(pages.push(page)),
        pages_view(pages.push(page)) == pages_view(pages).insert(page.name@, page.view()),
{
    let t = pages.push(page);
    let title = page.name@;
    assert forall|i: int, j: int|
        0 <= i < j < t.len() implies #[trigger] t[i].name@ != #[trigger] t[j].name@ by {
        if j < pages.len() {
            assert(pages[i].name@ != pages[j].name@);
        }
    };
    assert forall|i: int| 0 <= i < t.len() implies #[trigger] t[i].wf() by {
        if i < pages.len() {
            assert(pages[i].wf());
        }
    };
    assert forall|x: Seq<char>|
        #[trigger] pages_view(t).contains_key(x) == pages_view(pages).insert(
            title,
            page.view(),
        ).contains_key(x) by {
        if pages_view(pages).contains_key(x) {
            let i = choose|i: int| 0 <= i < pages.len() && pages[i].name@ == x;
            assert(t[i].name@ == x);
        }
        assert(t[pages.len() as int].name@ == title);
        if pages_view(t).contains_key(x) {
            let i = choose|i: int| 0 <= i < t.len() && t[i].name@ == x;
            if i < pages.len() {
                assert(pages[i].name@ == x);
            }
        }
    };
    assert forall|x: Seq<char>| #[trigger] pages_view(t).contains_key(x) implies pages_view(t)[x]
        == pages_view(pages).insert(title, page.view())[x] by {
        let i = choose|i: int| 0 <= i < t.len() && t[i].name@ == x;
        lemma_page_position(t, i);
        if x != title {
            lemma_page_position(pages, i);
        }
    };
    assert(pages_view(t) =~= pages_view(pages).insert(title, page.view()));
}

impl ResultForest {
    /// Titles are unique and every page is well formed.
    pub open spec fn wf(&self) -> bool {
        pages_wf(self.pages@)
    }

    /// The forest as a map from page title to what it holds for the page.
    pub open spec fn view(&self) -> Map<Seq<char>, ResultPageView> {
        pages_view(self.pages@)
    }

    /// An empty forest.
    pub fn new() -> (r: ResultForest)
        ensures
            r.wf(),
            r@ == Map::<Seq<char>, ResultPageView>::empty(),
    {
        let r = ResultForest { pages: Vec::new() };
        assert(r@ =~= Map::<Seq<char>, ResultPageView>::empty());
        r
    }

    /// Adds a search hit: resolves the item's page and path, includes every
    /// item on the path, records the hit's distance, and lowers the page's
    /// smallest distance if needed. A hit that cannot be resolved is an
    /// error and leaves the forest unchanged.
    pub fn add_item(&mut self, store: &Vec<RoamItem>, item_id: BlockId, distance: Distance) -> (r:
        Result<(), RetrievalError>)
        requires
            old(self).wf(),
            distance.is_valid(),
        ensures
            final(self).wf(),
            final(self)@ == apply_hit(store@, old(self)@, item_id, distance),
            match ancestors(store@, item_id) {
                Ok(_) => r is Ok,
                Err(e) => r == Err::<(), RetrievalError>(e),
            },
    {
        let (title, path) = match get_ancestor_ids(store, item_id) {
            Ok(found) => found,
            Err(e) => {
                return Err(e);
            },
        };
        let mut k: usize = 0;
        let mut position: Option<usize> = None;
        while k < self.pages.len()
            invariant
                *self == *old(self),
                k <= self.pages@.len(),
                position is None ==> forall|i: int| 0 <= i < k ==> self.pages@[i].name@ != title@,
                position is Some ==> position->Some_0 < self.pages@.len()
                    && self.pages@[position->Some_0 as int].name@ == title@,
            decreases self.pages.len() - k,
        {
            if position.is_none() && self.pages[k].name == title {
                position = Some(k);
            }
            k += 1;
        }
        let ghost before = self.pages@;
        let mut page = match position {
            Some(i) => self.pages.remove(i),
            None => ResultPage {
                name: title,
                min_distance: distance,
                included_items: Vec::new(),
                item_distances: Vec::new(),
            },
        };
        proof {
            match position {
                Some(i) => {
                    assert(before[i as int].wf());
                    lemma_page_position(before, i as int);
                },
                None => {
                    assert(!pages_view(before).contains_key(page.name@));
                    assert(page@.included =~= Set::<BlockId>::empty());
                    assert(page@.distances =~= Map::<BlockId, Distance>::empty());
                },
            }
        }
        page.include_path(&path);
        page.set_distance(item_id, distance);
        if distance.bits < page.min_distance.bits {
            page.min_distance = distance;
        }
        match position {
            Some(i) => {
                proof {
                    lemma_pages_update(before, i as int, page);
                    assert(self.pages@.insert(i as int, page) =~= before.update(i as int, page));
                }
                self.pages.insert(i, page);
            },
            None => {
                proof {
                    lemma_pages_push(before, page);
                }
                self.pages.push(page);
            },
        }
        Ok(())
    }
}

/// A page of the pruned forest: its title, its smallest hit distance, and
/// its included root items in authoring order.
pub struct SubsetPage {
    pub title: String,
    pub min_distance: Distance,
    pub children: Vec<SubsetItem>,
}

/// An item of the pruned forest: its identifier, its distance if it was a
/// hit, and its included children in authoring order.
pub struct SubsetItem {
    pub id: BlockId,
    pub distance: Option<Distance>,
    pub children: Vec<SubsetItem>,
}

/// Whether a stored item hangs from `owner` and is included.
pub open spec fn is_included_child(owner: OwnerView, included: Set<BlockId>) -> spec_fn(
    RoamItem,
) -> bool {
    |it: RoamItem| it.owner_view() == Some(owner) && included.contains(it.id)
}

/// The included items that hang from `owner`, in the order the store
/// lists them.
pub open spec fn included_children(
    store: Seq<RoamItem>,
    owner: OwnerView,
    included: Set<BlockId>,
) -> Seq<BlockId> {
    store.filter(is_included_child(owner, included)).map_values(|it: RoamItem| it.id)
}

/// The distance of `id` if it was a hit on the page.
pub open spec fn hit_distance(page: ResultPageView, id: BlockId) -> Option<Distance> {
    if page.distances.contains_key(id) {
        Some(page.distances[id])
    } else {
        None
    }
}

/// The identifiers of a list of subset items.
pub open spec fn subset_ids(items: Seq<SubsetItem>) -> Seq<BlockId> {
    items.map_values(|c: SubsetItem| c.id)
}

/// `node` is the pruned subtree of the page below its item, at most `fuel`
/// levels deep: it carries the item's hit distance, and its children are
/// the included children of the item in store order, each pruned likewise.
pub open spec fn subset_item_matches(
    store: Seq<RoamItem>,
    page: ResultPageView,
    node: SubsetItem,
    fuel: nat,
) -> bool
    decreases fuel,
{
    if fuel == 0 {
        false
    } else {
        &&& node.distance == hit_distance(page, node.id)
        &&& subset_ids(node.children@) == included_children(
            store,
            OwnerView::ChildOf(node.id),
            page.included,
        )
        &&& forall|i: int|
            0 <= i < node.children@.len() ==> subset_item_matches(
                store,
                page,
                #[trigger] node.children@[i],
                (fuel - 1) as nat,
            )
    }
}

/// The included descendants of `id` reach at most `fuel` levels down.
pub open spec fn descent_fits(store: Seq<RoamItem>, included: Set<BlockId>, id: BlockId, fuel: nat) -> bool
    decreases fuel,
{
    if fuel == 0 {
        false
    } else {
        forall|i: int|
            0 <= i < included_children(store, OwnerView::ChildOf(id), included).len()
                ==> descent_fits(
                store,
                included,
                #[trigger] included_children(store, OwnerView::ChildOf(id), included)[i],
                (fuel - 1) as nat,
            )
    }
}

/// `sp` is the pruned tree of page `title`: its smallest distance, and its
/// included root items in store order, each pruned below.
pub open spec fn subset_page_matches(
    store: Seq<RoamItem>,
    title: Seq<char>,
    page: ResultPageView,
    sp: SubsetPage,
) -> bool {
    &&& sp.title@ == title
    &&& sp.min_distance == page.min_distance
    &&& subset_ids(sp.children@) == included_children(store, OwnerView::RootOf(title), page.included)
    &&& forall|i: int|
        0 <= i < sp.children@.len() ==> subset_item_matches(
            store,
            page,
            #[trigger] sp.children@[i],
            walk_limit(store),
        )
}

/// Every included root item of page `title` has a subtree no deeper than
/// the store has items; a deeper one can only come from a cycle.
pub open spec fn page_fits(store: Seq<RoamItem>, title: Seq<char>, page: ResultPageView) -> bool {
    forall|i: int|
        0 <= i < included_children(store, OwnerView::RootOf(title), page.included).len()
            ==> descent_fits(
            store,
            page.included,
            #[trigger] included_children(store, OwnerView::RootOf(title), page.included)[i],
            walk_limit(store),
        )
}

/// Whether `id` is in `ids`.
fn contains_id(ids: &Vec<BlockId>, id: BlockId) -> (r: bool)
    ensures
        r == ids@.to_set().contains(id),
{
    let mut k: usize = 0;
    while k < ids.len()
        invariant
            k <= ids@.len(),
            forall|j: int| 0 <= j < k ==> ids@[j] != id,
        decreases ids.len() - k,
    {
        if ids[k] == id {
            assert(ids@.contains(id));
            return true;
        }
        k += 1;
    }
    false
}

/// Whether stored item `it` hangs from `owner`.
fn hangs_from(it: &RoamItem, owner: &Owner) -> (r: bool)
    ensures
        r == (it.owner_view() == Some(owner_view(*owner))),
{
    match (owner, &it.parent_page_id, &it.parent_item_id) {
        (Owner::RootOf(title), Some(t), None) => *t == *title,
        (Owner::ChildOf(parent), None, Some(p)) => *p == *parent,
        _ => false,
    }
}

/// The included items that hang from `owner`, in store order.
fn get_included_children(store: &Vec<RoamItem>, owner: &Owner, included: &Vec<BlockId>) -> (r: Vec<
    BlockId,
>)
    ensures
        r@ == included_children(store@, owner_view(*owner), included@.to_set()),
{
    let ghost pred = is_included_child(owner_view(*owner), included@.to_set());
    let mut out: Vec<BlockId> = Vec::new();
    let mut i: usize = 0;
    while i < store.len()
        invariant
            i <= store@.len(),
            pred == is_included_child(owner_view(*owner), included@.to_set()),
            out@ == store@.take(i as int).filter(pred).map_values(|it: RoamItem| it.id),
        decreases store.len() - i,
    {
        let keep = hangs_from(&store[i], owner) && contains_id(included, store[i].id);
        proof {
            assert(store@.take(i + 1) =~= store@.take(i as int).push(store@[i as int]));
            store@.take(i as int).lemma_filter_push(store@[i as int], pred);
        }
        if keep {
            out.push(store[i].id);
            proof {
                let f = store@.take(i as int).filter(pred);
                assert(f.push(store@[i as int]).map_values(|it: RoamItem| it.id) =~= f.map_values(
                    |it: RoamItem| it.id,
                ).push(store@[i as int].id));
            }
        }
        i += 1;
    }
    assert(store@.take(store@.len() as int) =~= store@);
    out
}

impl ResultPage {
    /// The distance of hit `id`, if it is one.
    fn get_hit_distance(&self, id: BlockId) -> (r: Option<Distance>)
        requires
            self.wf(),
        ensures
            r == hit_distance(self@, id),
    {
        let mut k: usize = 0;
        while k < self.item_distances.len()
            invariant
                self.wf(),
                k <= self.item_distances@.len(),
                forall|i: int| 0 <= i < k ==> self.item_distances@[i].0 != id,
            decreases self.item_distances.len() - k,
        {
            if self.item_distances[k].0 == id {
                proof {
                    lemma_key_position(self.item_distances@, k as int);
                }
                return Some(self.item_distances[k].1);
            }
            k += 1;
        }
        None
    }

    fn subset_item(&self, store: &Vec<RoamItem>, item: BlockId, depth_left: usize) -> (r: Result<
        SubsetItem,
        RetrievalError,
    >)
        requires
            self.wf(),
        ensures
            r is Ok <==> descent_fits(store@, self@.included, item, depth_left as nat + 1),
            r is Ok ==> r->Ok_0.id == item && subset_item_matches(
                store@,
                self@,
                r->Ok_0,
                depth_left as nat + 1,
            ),
            r is Err ==> r == Err::<SubsetItem, RetrievalError>(
                RetrievalError::IntegrityViolation,
            ),
        decreases depth_left,
    {
        let children = get_included_children(store, &Owner::ChildOf(item), &self.included_items);
        let distance = self.get_hit_distance(item);
        let mut out: Vec<SubsetItem> = Vec::new();
        let mut i: usize = 0;
        while i < children.len()
            invariant
                self.wf(),
                i <= children@.len(),
                children@ == included_children(store@, OwnerView::ChildOf(item), self@.included),
                out@.len() == i,
                forall|j: int| 0 <= j < i ==> (#[trigger] out@[j]).id == children@[j],
                forall|j: int|
                    0 <= j < i ==> subset_item_matches(
                        store@,
                        self@,
                        #[trigger] out@[j],
                        depth_left as nat,
                    ),
                forall|j: int|
                    0 <= j < i ==> descent_fits(
                        store@,
                        self@.included,
                        #[trigger] children@[j],
                        depth_left as nat,
                    ),
            decreases children.len() - i,
        {
            if depth_left == 0 {
                assert(!descent_fits(store@, self@.included, children@[i as int], 0));
                return Err(RetrievalError::IntegrityViolation);
            }
            match self.subset_item(store, children[i], depth_left - 1) {
                Ok(child) => {
                    out.push(child);
                },
                Err(e) => {
                    return Err(e);
                },
            }
            i += 1;
        }
        assert(subset_ids(out@) =~= children@);
        Ok(SubsetItem { id: item, distance, children: out })
    }

    /// The pruned subtree below `item`: the item with its hit distance, and
    /// its included children in store order, each pruned likewise.
    pub fn get_subset_item(&self, store: &Vec<RoamItem>, item: BlockId) -> (r: Result<
        SubsetItem,
        RetrievalError,
    >)
        requires
            self.wf(),
        ensures
            r is Ok <==> descent_fits(store@, self@.included, item, walk_limit(store@)),
            r is Ok ==> r->Ok_0.id == item && subset_item_matches(
                store@,
                self@,
                r->Ok_0,
                walk_limit(store@),
            ),
            r is Err ==> r == Err::<SubsetItem, RetrievalError>(
                RetrievalError::IntegrityViolation,
            ),
    {
        self.subset_item(store, item, store.len())
    }

    /// The pruned tree of this page: its included root items in store
    /// order, each pruned below.
    pub fn get_subset_page(&self, store: &Vec<RoamItem>) -> (r: Result<SubsetPage, RetrievalError>)
        requires
            self.wf(),
        ensures
            r is Ok <==> page_fits(store@, self.name@, self@),
            r is Ok ==> subset_page_matches(store@, self.name@, self@, r->Ok_0),
            r is Err ==> r == Err::<SubsetPage, RetrievalError>(
                RetrievalError::IntegrityViolation,
            ),
    {
        let children = get_included_children(
            store,
            &Owner::RootOf(self.name.clone()),
            &self.included_items,
        );
        let mut out: Vec<SubsetItem> = Vec::new();
        let mut i: usize = 0;
        while i < children.len()
            invariant
                self.wf(),
                i <= children@.len(),
                children@ == included_children(store@, OwnerView::RootOf(self.name@), self@.included),
                out@.len() == i,
                forall|j: int| 0 <= j < i ==> (#[trigger] out@[j]).id == children@[j],
                forall|j: int|
                    0 <= j < i ==> subset_item_matches(
                        store@,
                        self@,
                        #[trigger] out@[j],
                        walk_limit(store@),
                    ),
                forall|j: int|
                    0 <= j < i ==> descent_fits(
                        store@,
                        self@.included,
                        #[trigger] children@[j],
                        walk_limit(store@),
                    ),
            decreases children.len() - i,
        {
            match self.get_subset_item(store, children[i]) {
                Ok(child) => {
                    out.push(child);
                },
                Err(e) => {
                    return Err(e);
                },
            }
            i += 1;
        }
        assert(subset_ids(out@) =~= children@);
        Ok(SubsetPage { title: self.name.clone(), min_distance: self.min_distance, children: out })
    }
}

/// Page `(d1, t1)` ranks strictly before page `(d2, t2)`: by smallest
/// distance, then by title.
pub open spec fn ranks_before(d1: Distance, t1: Seq<char>, d2: Distance, t2: Seq<char>) -> bool {
    d1.bits < d2.bits || (d1.bits == d2.bits && lex_le(text_key(t1), text_key(t2)) && t1 != t2)
}

proof fn lemma_ranks_before_total(d1: Distance, t1: Seq<char>, d2: Distance, t2: Seq<char>)
    requires
        t1 != t2,
    ensures
        ranks_before(d1, t1, d2, t2) || ranks_before(d2, t2, d1, t1),
{
    lemma_lex_total(text_key(t1), text_key(t2));
}

proof fn lemma_ranks_before_transitive(
    d1: Distance,
    t1: Seq<char>,
    d2: Distance,
    t2: Seq<char>,
    d3: Distance,
    t3: Seq<char>,
)
    requires
        ranks_before(d1, t1, d2, t2),
        ranks_before(d2, t2, d3, t3),
    ensures
        ranks_before(d1, t1, d3, t3),
{
    if d1.bits == d2.bits && d2.bits == d3.bits {
        lemma_lex_transitive(text_key(t1), text_key(t2), text_key(t3));
        if t1 == t3 {
            lemma_lex_antisymmetric(text_key(t1), text_key(t2));
            lemma_text_key_injective(t1, t2);
        }
    }
}

impl Default for ResultForest {
    fn default() -> (r: ResultForest)
        ensures
            r.wf(),
            r@ == Map::<Seq<char>, ResultPageView>::empty(),
    {
        ResultForest::new()
    }
}

/// `ps` is the pruned forest of `f`: one pruned tree for each page of `f`,
/// ordered by rank.
pub open spec fn is_subset_page_list(
    store: Seq<RoamItem>,
    f: Map<Seq<char>, ResultPageView>,
    ps: Seq<SubsetPage>,
) -> bool {
    &&& forall|i: int|
        0 <= i < ps.len() ==> f.contains_key(#[trigger] ps[i].title@) && subset_page_matches(
            store,
            ps[i].title@,
            f[ps[i].title@],
            ps[i],
        )
    &&& forall|t: Seq<char>|
        #[trigger] f.contains_key(t) ==> exists|i: int| 0 <= i < ps.len() && ps[i].title@ == t
    &&& forall|i: int, j: int|
        0 <= i < j < ps.len() ==> ranks_before(
            ps[i].min_distance,
            ps[i].title@,
            ps[j].min_distance,
            ps[j].title@,
        )
}

/// Whether `a` ranks strictly before `b`.
fn page_ranks_before(a: &ResultPage, b: &ResultPage) -> (r: bool)
    ensures
        r == ranks_before(a.min_distance, a.name@, b.min_distance, b.name@),
{
    if a.min_distance.bits != b.min_distance.bits {
        return a.min_distance.bits < b.min_distance.bits;
    }
    text_le(a.name.as_str(), b.name.as_str()) && !(a.name == b.name)
}

impl ResultForest {
    /// The positions of the pages, ordered by rank.
    fn ranked_positions(&self) -> (r: Vec<usize>)
        requires
            self.wf(),
        ensures
            r@.len() == self.pages@.len(),
            forall|j: int| 0 <= j < r@.len() ==> r@[j] < self.pages@.len(),
            forall|x: usize| x < self.pages@.len() ==> #[trigger] r@.contains(x),
            forall|a: int, b: int|
                0 <= a < b < r@.len() ==> ranks_before(
                    self.pages@[r@[a] as int].min_distance,
                    self.pages@[r@[a] as int].name@,
                    self.pages@[r@[b] as int].min_distance,
                    self.pages@[r@[b] as int].name@,
                ),
    {
        let ghost pages = self.pages@;
        let mut order: Vec<usize> = Vec::new();
        let mut i: usize = 0;
        while i < self.pages.len()
            invariant
                pages == self.pages@,
                pages_wf(pages),
                i <= pages.len(),
                order@.len() == i,
                forall|j: int| 0 <= j < order@.len() ==> order@[j] < i,
                forall|x: usize| x < i ==> #[trigger] order@.contains(x),
                forall|a: int, b: int|
                    0 <= a < b < order@.len() ==> ranks_before(
                        pages[order@[a] as int].min_distance,
                        pages[order@[a] as int].name@,
                        pages[order@[b] as int].min_distance,
                        pages[order@[b] as int].name@,
                    ),
            decreases pages.len() - i,
        {
            let mut p: usize = 0;
            while p < order.len() && page_ranks_before(&self.pages[order[p]], &self.pages[i])
                invariant
                    pages == self.pages@,
                    i < pages.len(),
                    p <= order@.len(),
                    forall|j: int| 0 <= j < order@.len() ==> order@[j] < i,
                    forall|j: int|
                        0 <= j < p ==> ranks_before(
                            pages[order@[j] as int].min_distance,
                            pages[order@[j] as int].name@,
                            pages[i as int].min_distance,
                            pages[i as int].name@,
                        ),
                decreases order.len() - p,
            {
                p += 1;
            }
            let ghost before = order@;
            proof {
                if p < before.len() {
                    let q = before[p as int] as int;
                    assert(pages[q].name@ != pages[i as int].name@);
                    lemma_ranks_before_total(
                        pages[q].min_distance,
                        pages[q].name@,
                        pages[i as int].min_distance,
                        pages[i as int].name@,
                    );
                }
            }
            order.insert(p, i);
            proof {
                let o = order@;
                assert forall|a: int, b: int| 0 <= a < b < o.len() implies ranks_before(
                    pages[o[a] as int].min_distance,
                    pages[o[a] as int].name@,
                    pages[o[b] as int].min_distance,
                    pages[o[b] as int].name@,
                ) by {
                    if b == p {
                    } else if a == p {
                        let q = before[p as int] as int;
                        if b - 1 > p {
                            lemma_ranks_before_transitive(
                                pages[i as int].min_distance,
                                pages[i as int].name@,
                                pages[q].min_distance,
                                pages[q].name@,
                                pages[o[b] as int].min_distance,
                                pages[o[b] as int].name@,
                            );
                        }
                    } else if a < p && b > p {
                        assert(o[a] == before[a]);
                        assert(o[b] == before[b - 1]);
                    } else if b < p {
                        assert(o[a] == before[a]);
                    } else {
                        assert(o[a] == before[a - 1]);
                    }
                };
                assert forall|x: usize| x < i + 1 implies #[trigger] o.contains(x) by {
                    if x < i {
                        assert(before.contains(x));
                        let j = choose|j: int| 0 <= j < before.len() && before[j] == x;
                        if j < p {
                            assert(o[j] == x);
                        } else {
                            assert(o[j + 1] == x);
                        }
                    } else {
                        assert(o[p as int] == i);
                    }
                };
            }
            i += 1;
        }
        order
    }

    /// The pruned forest: one pruned tree per page, ordered by smallest
    /// distance and then by title.
    pub fn get_subset_page_list(&self, store: &Vec<RoamItem>) -> (r: Result<
        Vec<SubsetPage>,
        RetrievalError,
    >)
        requires
            self.wf(),
        ensures
            r is Ok <==> forall|t: Seq<char>|
                #[trigger] self@.contains_key(t) ==> page_fits(store@, t, self@[t]),
            r is Err ==> r == Err::<Vec<SubsetPage>, RetrievalError>(
                RetrievalError::IntegrityViolation,
            ),
            r is Ok ==> forall|i: int|
                0 <= i < r->Ok_0@.len() ==> self@.contains_key(#[trigger] r->Ok_0@[i].title@)
                    && subset_page_matches(
                    store@,
                    r->Ok_0@[i].title@,
                    self@[r->Ok_0@[i].title@],
                    r->Ok_0@[i],
                ),
            r is Ok ==> forall|t: Seq<char>|
                #[trigger] self@.contains_key(t) ==> exists|i: int|
                    0 <= i < r->Ok_0@.len() && r->Ok_0@[i].title@ == t,
            r is Ok ==> forall|i: int, j: int|
                0 <= i < j < r->Ok_0@.len() ==> ranks_before(
                    r->Ok_0@[i].min_distance,
                    r->Ok_0@[i].title@,
                    r->Ok_0@[j].min_distance,
                    r->Ok_0@[j].title@,
                ),
            r is Ok ==> is_subset_page_list(store@, self@, r->Ok_0@),
    {
        let order = self.ranked_positions();
        let ghost pages = self.pages@;
        let mut out: Vec<SubsetPage> = Vec::new();
        let mut k: usize = 0;
        while k < order.len()
            invariant
                pages == self.pages@,
                pages_wf(pages),
                k <= order@.len(),
                order@.len() == pages.len(),
                forall|j: int| 0 <= j < order@.len() ==> order@[j] < pages.len(),
                forall|a: int, b: int|
                    0 <= a < b < order@.len() ==> ranks_before(
                        pages[order@[a] as int].min_distance,
                        pages[order@[a] as int].name@,
                        pages[order@[b] as int].min_distance,
                        pages[order@[b] as int].name@,
                    ),
                out@.len() == k,
                forall|j: int|
                    0 <= j < k ==> (#[trigger] out@[j]).title@ == pages[order@[j] as int].name@
                        && out@[j].min_distance == pages[order@[j] as int].min_distance
                        && subset_page_matches(
                        store@,
                        pages[order@[j] as int].name@,
                        pages[order@[j] as int]@,
                        out@[j],
                    ),
                forall|j: int|
                    0 <= j < k ==> page_fits(
                        store@,
                        pages[#[trigger] order@[j] as int].name@,
                        pages[order@[j] as int]@,
                    ),
            decreases order.len() - k,
        {
            let position = order[k];
            assert(pages[position as int].wf());
            match self.pages[position].get_subset_page(store) {
                Ok(sp) => {
                    out.push(sp);
                },
                Err(e) => {
                    proof {
                        let t = pages[position as int].name@;
                        lemma_page_position(pages, position as int);
                        assert(self@.contains_key(t));
                        assert(!page_fits(store@, t, self@[t]));
                    }
                    return Err(e);
                },
            }
            k += 1;
        }
        proof {
            let ps = out@;
            assert forall|i: int| 0 <= i < ps.len() implies self@.contains_key(#[trigger] ps[i].title@)
                && subset_page_matches(store@, ps[i].title@, self@[ps[i].title@], ps[i]) by {
                lemma_page_position(pages, order@[i] as int);
            };
            assert forall|t: Seq<char>| #[trigger] self@.contains_key(t) implies page_fits(
                store@,
                t,
                self@[t],
            ) by {
                let x = choose|x: int| 0 <= x < pages.len() && pages[x].name@ == t;
                assert(order@.contains(x as usize));
                let j = choose|j: int| 0 <= j < order@.len() && order@[j] == x as usize;
                lemma_page_position(pages, x);
                assert(page_fits(store@, pages[order@[j] as int].name@, pages[order@[j] as int]@));
            };
            assert forall|i: int, j: int| 0 <= i < j < ps.len() implies ranks_before(
                ps[i].min_distance,
                ps[i].title@,
                ps[j].min_distance,
                ps[j].title@,
            ) by {
                assert(ps[i].title@ == pages[order@[i] as int].name@);
                assert(ps[j].title@ == pages[order@[j] as int].name@);
            };
        }
        let r: Result<Vec<SubsetPage>, RetrievalError> = Ok(out);
        proof {
            assert forall|t: Seq<char>| #[trigger] self@.contains_key(t) implies exists|i: int|
                0 <= i < r->Ok_0@.len() && r->Ok_0@[i].title@ == t by {
                let x = choose|x: int| 0 <= x < pages.len() && pages[x].name@ == t;
                assert(order@.contains(x as usize));
                let j = choose|j: int| 0 <= j < order@.len() && order@[j] == x as usize;
                assert(r->Ok_0@[j].title@ == t);
            };
        }
        r
    }
}

/// `node` and everything below it hang, in the store, from what they sit
/// under: the store holds an item with `node`'s identifier owned by
/// `owner`, and each child of `node` hangs from `node`'s item likewise.
pub open spec fn hangs_under(store: Seq<RoamItem>, node: SubsetItem, owner: OwnerView) -> bool
    decreases node,
{
    &&& exists|k: int|
        0 <= k < store.len() && store[k].id == node.id && store[k].owner_view() == Some(owner)
    &&& forall|i: int|
        0 <= i < node.children@.len() ==> hangs_under(
            store,
            #[trigger] node.children@[i],
            OwnerView::ChildOf(node.id),
        )
}

proof fn lemma_filtered_in(s: Seq<RoamItem>, pred: spec_fn(RoamItem) -> bool, i: int)
    requires
        0 <= i < s.filter(pred).len(),
    ensures
        s.contains(s.filter(pred)[i]),
    decreases s.len(),
{
    reveal(Seq::filter);
    if s.len() > 0 {
        let rest = s.drop_last();
        let sub = rest.filter(pred);
        if i < sub.len() {
            lemma_filtered_in(rest, pred, i);
            let k = choose|k: int| 0 <= k < rest.len() && rest[k] == sub[i];
            assert(s[k] == rest[k]);
        } else {
            assert(s[s.len() - 1] == s.last());
        }
    }
}

proof fn lemma_included_child_hangs(
    store: Seq<RoamItem>,
    owner: OwnerView,
    included: Set<BlockId>,
    i: int,
)
    requires
        0 <= i < included_children(store, owner, included).len(),
    ensures
        exists|k: int|
            0 <= k < store.len() && store[k].id == included_children(store, owner, included)[i]
                && store[k].owner_view() == Some(owner),
        included.contains(included_children(store, owner, included)[i]),
{
    let pred = is_included_child(owner, included);
    let kept = store.filter(pred);
    store.lemma_filter_pred(pred, i);
    lemma_filtered_in(store, pred, i);
    let k = choose|k: int| 0 <= k < store.len() && store[k] == kept[i];
    assert(store[k].id == included_children(store, owner, included)[i]);
}

proof fn lemma_item_connected(
    store: Seq<RoamItem>,
    page: ResultPageView,
    node: SubsetItem,
    fuel: nat,
    owner: OwnerView,
)
    requires
        subset_item_matches(store, page, node, fuel),
        exists|k: int|
            0 <= k < store.len() && store[k].id == node.id && store[k].owner_view() == Some(owner),
    ensures
        hangs_under(store, node, owner),
    decreases fuel,
{
    let below = OwnerView::ChildOf(node.id);
    assert forall|i: int| 0 <= i < node.children@.len() implies hangs_under(
        store,
        #[trigger] node.children@[i],
        below,
    ) by {
        let child = node.children@[i];
        assert(subset_ids(node.children@)[i] == child.id);
        lemma_included_child_hangs(store, below, page.included, i);
        lemma_item_connected(store, page, child, (fuel - 1) as nat, below);
    };
}

/// Every item of a pruned page tree has an unbroken path to the page:
/// each root item is a root item of the page in the store, and each other
/// item is a stored child of the item it sits under.
pub proof fn lemma_subset_page_connected(
    store: Seq<RoamItem>,
    title: Seq<char>,
    page: ResultPageView,
    sp: SubsetPage,
)
    requires
        subset_page_matches(store, title, page, sp),
    ensures
        forall|i: int|
            0 <= i < sp.children@.len() ==> hangs_under(
                store,
                #[trigger] sp.children@[i],
                OwnerView::RootOf(title),
            ),
{
    let top = OwnerView::RootOf(title);
    assert forall|i: int| 0 <= i < sp.children@.len() implies hangs_under(
        store,
        #[trigger] sp.children@[i],
        top,
    ) by {
        assert(subset_ids(sp.children@)[i] == sp.children@[i].id);
        lemma_included_child_hangs(store, top, page.included, i);
        lemma_item_connected(store, page, sp.children@[i], walk_limit(store), top);
    };
}

/// Two pruned item trees are the same: the same identifiers and distances
/// in the same shape.
pub open spec fn same_tree(a: SubsetItem, b: SubsetItem) -> bool
    decreases a,
{
    &&& a.id == b.id
    &&& a.distance == b.distance
    &&& a.children@.len() == b.children@.len()
    &&& forall|i: int|
        0 <= i < a.children@.len() ==> same_tree(#[trigger] a.children@[i], b.children@[i])
}

/// Two pruned page trees are the same.
pub open spec fn same_page(a: SubsetPage, b: SubsetPage) -> bool {
    &&& a.title@ == b.title@
    &&& a.min_distance == b.min_distance
    &&& a.children@.len() == b.children@.len()
    &&& forall|i: int|
        0 <= i < a.children@.len() ==> same_tree(#[trigger] a.children@[i], b.children@[i])
}

proof fn lemma_item_matches_unique(
    store: Seq<RoamItem>,
    page: ResultPageView,
    a: SubsetItem,
    b: SubsetItem,
    fuel: nat,
)
    requires
        subset_item_matches(store, page, a, fuel),
        subset_item_matches(store, page, b, fuel),
        a.id == b.id,
    ensures
        same_tree(a, b),
    decreases fuel,
{
    assert(subset_ids(a.children@).len() == a.children@.len());
    assert(subset_ids(b.children@).len() == b.children@.len());
    assert forall|i: int| 0 <= i < a.children@.len() implies same_tree(
        #[trigger] a.children@[i],
        b.children@[i],
    ) by {
        assert(subset_ids(a.children@)[i] == a.children@[i].id);
        assert(subset_ids(b.children@)[i] == b.children@[i].id);
        lemma_item_matches_unique(store, page, a.children@[i], b.children@[i], (fuel - 1) as nat);
    };
}

proof fn lemma_page_matches_unique(
    store: Seq<RoamItem>,
    title: Seq<char>,
    page: ResultPageView,
    a: SubsetPage,
    b: SubsetPage,
)
    requires
        subset_page_matches(store, title, page, a),
        subset_page_matches(store, title, page, b),
    ensures
        same_page(a, b),
{
    assert(subset_ids(a.children@).len() == a.children@.len());
    assert(subset_ids(b.children@).len() == b.children@.len());
    assert forall|i: int| 0 <= i < a.children@.len() implies same_tree(
        #[trigger] a.children@[i],
        b.children@[i],
    ) by {
        assert(subset_ids(a.children@)[i] == a.children@[i].id);
        assert(subset_ids(b.children@)[i] == b.children@[i].id);
        lemma_item_matches_unique(store, page, a.children@[i], b.children@[i], walk_limit(store));
    };
}

/// A page's rank key: its smallest distance and its title.
pub open spec fn rank_key(p: SubsetPage) -> (Distance, Seq<char>) {
    (p.min_distance, p.title@)
}

/// The rank keys of a list of pages.
pub open spec fn rank_keys(ps: Seq<SubsetPage>) -> Seq<(Distance, Seq<char>)> {
    ps.map_values(|p: SubsetPage| rank_key(p))
}

/// Rank keys in order, equal keys included.
pub open spec fn rank_le() -> spec_fn((Distance, Seq<char>), (Distance, Seq<char>)) -> bool {
    |a: (Distance, Seq<char>), b: (Distance, Seq<char>)| a == b || ranks_before(a.0, a.1, b.0, b.1)
}

proof fn lemma_rank_le_total()
    ensures
        total_ordering(rank_le()),
{
    assert forall|a: (Distance, Seq<char>), b: (Distance, Seq<char>)|
        #![trigger rank_le()(a, b), rank_le()(b, a)]
        rank_le()(a, b) && rank_le()(b, a) implies a == b by {
        if a != b {
            if a.0.bits == b.0.bits {
                lemma_lex_antisymmetric(text_key(a.1), text_key(b.1));
                lemma_text_key_injective(a.1, b.1);
            }
        }
    };
    assert forall|a: (Distance, Seq<char>), b: (Distance, Seq<char>), c: (Distance, Seq<char>)|
        #![trigger rank_le()(a, b), rank_le()(b, c)]
        rank_le()(a, b) && rank_le()(b, c) implies rank_le()(a, c) by {
        if a != b && b != c {
            lemma_ranks_before_transitive(a.0, a.1, b.0, b.1, c.0, c.1);
        }
    };
    assert forall|a: (Distance, Seq<char>), b: (Distance, Seq<char>)|
        #![trigger rank_le()(a, b)]
        rank_le()(a, b) || rank_le()(b, a) by {
        if a.1 != b.1 {
            lemma_ranks_before_total(a.0, a.1, b.0, b.1);
        } else if a.0.bits != b.0.bits {
        } else {
            assert(a.0 == b.0);
        }
    };
}

proof fn lemma_rank_keys(
    store: Seq<RoamItem>,
    f: Map<Seq<char>, ResultPageView>,
    ps: Seq<SubsetPage>,
)
    requires
        is_subset_page_list(store, f, ps),
    ensures
        sorted_by(rank_keys(ps), rank_le()),
        rank_keys(ps).no_duplicates(),
        forall|x: (Distance, Seq<char>)|
            #[trigger] rank_keys(ps).contains(x) <==> (f.contains_key(
                x.1,
            ) && x.0 == f[x.1].min_distance),
{
    let keys = rank_keys(ps);
    assert forall|i: int, j: int| 0 <= i < j < keys.len() implies #[trigger] rank_le()(
        keys[i],
        keys[j],
    ) by {
        assert(ranks_before(ps[i].min_distance, ps[i].title@, ps[j].min_distance, ps[j].title@));
    };
    assert forall|i: int, j: int|
        0 <= i < keys.len() && 0 <= j < keys.len() && i != j implies keys[i] != keys[j] by {
        if i < j {
            assert(ranks_before(ps[i].min_distance, ps[i].title@, ps[j].min_distance, ps[j].title@));
        } else {
            assert(ranks_before(ps[j].min_distance, ps[j].title@, ps[i].min_distance, ps[i].title@));
        }
    };
    assert forall|x: (Distance, Seq<char>)| #[trigger] keys.contains(x) <==> (f.contains_key(x.1)
        && x.0 == f[x.1].min_distance) by {
        if keys.contains(x) {
            let i = choose|i: int| 0 <= i < keys.len() && keys[i] == x;
            assert(f.contains_key(ps[i].title@));
        }
        if f.contains_key(x.1) && x.0 == f[x.1].min_distance {
            let i = choose|i: int| 0 <= i < ps.len() && ps[i].title@ == x.1;
            assert(f.contains_key(ps[i].title@));
            assert(keys[i] == x);
        }
    };
}

/// The pruned forest of a forest is unique: any two lists that meet
/// `is_subset_page_list` for the same forest and store hold the same pages,
/// in the same order, with the same trees.
pub proof fn lemma_subset_page_list_unique(
    store: Seq<RoamItem>,
    f: Map<Seq<char>, ResultPageView>,
    ps1: Seq<SubsetPage>,
    ps2: Seq<SubsetPage>,
)
    requires
        is_subset_page_list(store, f, ps1),
        is_subset_page_list(store, f, ps2),
    ensures
        ps1.len() == ps2.len(),
        forall|i: int| 0 <= i < ps1.len() ==> same_page(#[trigger] ps1[i], ps2[i]),
{
    broadcast use vstd::seq_lib::group_to_multiset_ensures;
    broadcast use vstd::multiset::group_multiset_axioms;

    let k1 = rank_keys(ps1);
    let k2 = rank_keys(ps2);
    lemma_rank_le_total();
    lemma_rank_keys(store, f, ps1);
    lemma_rank_keys(store, f, ps2);
    k1.lemma_multiset_has_no_duplicates();
    k2.lemma_multiset_has_no_duplicates();
    assert forall|x: (Distance, Seq<char>)| k1.to_multiset().count(x) == k2.to_multiset().count(
        x,
    ) by {
        if k1.contains(x) {
            assert(k2.contains(x));
        } else {
            assert(!k2.contains(x));
        }
    };
    assert(k1.to_multiset() =~= k2.to_multiset());
    lemma_sorted_unique(k1, k2, rank_le());
    assert forall|i: int| 0 <= i < ps1.len() implies same_page(#[trigger] ps1[i], ps2[i]) by {
        assert(k1[i] == k2[i]);
        let t = ps1[i].title@;
        assert(f.contains_key(ps1[i].title@));
        assert(f.contains_key(ps2[i].title@));
        lemma_page_matches_unique(store, t, f[t], ps1[i], ps2[i]);
    };
}

/// The pruned forest does not depend on the order in which hits were added,
/// as long as no item has hits at two different distances.
pub proof fn lemma_subset_page_list_hit_order(
    store: Seq<RoamItem>,
    hits1: Seq<(BlockId, Distance)>,
    hits2: Seq<(BlockId, Distance)>,
    ps1: Seq<SubsetPage>,
    ps2: Seq<SubsetPage>,
)
    requires
        consistent_hits(hits1),
        hits1.to_multiset() == hits2.to_multiset(),
        is_subset_page_list(store, apply_hits(store, Map::empty(), hits1), ps1),
        is_subset_page_list(store, apply_hits(store, Map::empty(), hits2), ps2),
    ensures
        ps1.len() == ps2.len(),
        forall|i: int| 0 <= i < ps1.len() ==> same_page(#[trigger] ps1[i], ps2[i]),
{
    lemma_hit_order_irrelevant(store, Map::empty(), hits1, hits2);
    lemma_subset_page_list_unique(store, apply_hits(store, Map::empty(), hits1), ps1, ps2);
}

/// The pruned forest after a hit added twice is the pruned forest after it
/// was added once.
pub proof fn lemma_subset_page_list_repeated_hit(
    store: Seq<RoamItem>,
    f: Map<Seq<char>, ResultPageView>,
    id: BlockId,
    d: Distance,
    ps1: Seq<SubsetPage>,
    ps2: Seq<SubsetPage>,
)
    requires
        is_subset_page_list(store, apply_hit(store, apply_hit(store, f, id, d), id, d), ps1),
        is_subset_page_list(store, apply_hit(store, f, id, d), ps2),
    ensures
        ps1.len() == ps2.len(),
        forall|i: int| 0 <= i < ps1.len() ==> same_page(#[trigger] ps1[i], ps2[i]),
{
    lemma_add_hit_idempotent(store, f, id, d);
    lemma_subset_page_list_unique(store, apply_hit(store, f, id, d), ps1, ps2);
}

/// Every item that the forest includes resolves to a page in the store.
pub open spec fn forest_resolved(store: Seq<RoamItem>, f: Map<Seq<char>, ResultPageView>) -> bool {
    forall|t: Seq<char>, x: BlockId|
        #[trigger] f.contains_key(t) && #[trigger] f[t].included.contains(x) ==> ancestors(
            store,
            x,
        ) is Ok
}

proof fn lemma_apply_hit_resolved(
    store: Seq<RoamItem>,
    f: Map<Seq<char>, ResultPageView>,
    id: BlockId,
    d: Distance,
)
    requires
        forest_resolved(store, f),
    ensures
        forest_resolved(store, apply_hit(store, f, id, d)),
{
    match ancestors(store, id) {
        Ok((title, path)) => {
            lemma_path_members_resolve(store, id, walk_limit(store));
            let g = apply_hit(store, f, id, d);
            assert forall|t: Seq<char>, x: BlockId|
                #[trigger] g.contains_key(t) && #[trigger] g[t].included.contains(x) implies ancestors(
                store,
                x,
            ) is Ok by {
                if t == title && path.to_set().contains(x) {
                    let i = choose|i: int| 0 <= i < path.len() && path[i] == x;
                    assert(path[i] == x);
                }
            };
        },
        Err(_) => {},
    }
}

proof fn lemma_apply_hits_resolved(
    store: Seq<RoamItem>,
    hits: Seq<(BlockId, Distance)>,
)
    ensures
        forest_resolved(store, apply_hits(store, Map::empty(), hits)),
    decreases hits.len(),
{
    if hits.len() > 0 {
        lemma_apply_hits_resolved(store, hits.drop_last());
        lemma_apply_hit_resolved(
            store,
            apply_hits(store, Map::empty(), hits.drop_last()),
            hits.last().0,
            hits.last().1,
        );
    }
}

/// With unique identifiers and every included item resolving, the subtree
/// below an included item whose path has `len` items fits in `fuel` levels
/// whenever `fuel + len` exceeds the walk limit.
proof fn lemma_descent_fits(
    store: Seq<RoamItem>,
    included: Set<BlockId>,
    x: BlockId,
    fuel: nat,
)
    requires
        ids_unique(store),
        forall|y: BlockId| #[trigger] included.contains(y) ==> ancestors(store, y) is Ok,
        ancestors(store, x) is Ok,
        fuel + ancestors(store, x)->Ok_0.1.len() > walk_limit(store),
    ensures
        descent_fits(store, included, x, fuel),
    decreases fuel,
{
    let w = walk_limit(store);
    let p = ancestors(store, x)->Ok_0.1;
    lemma_path_length(store, x, w);
    let kids = included_children(store, OwnerView::ChildOf(x), included);
    assert forall|i: int| 0 <= i < kids.len() implies descent_fits(
        store,
        included,
        #[trigger] kids[i],
        (fuel - 1) as nat,
    ) by {
        let c = kids[i];
        lemma_included_child_hangs(store, OwnerView::ChildOf(x), included, i);
        let k = choose|k: int|
            0 <= k < store.len() && store[k].id == c && store[k].owner_view() == Some(
                OwnerView::ChildOf(x),
            );
        lemma_find_unique(store, k);
        lemma_ancestor_step(store, c, w, k);
        assert(ancestors(store, c) is Ok);
        let above = ancestor_path(store, x, (w - 1) as nat);
        assert(above is Ok);
        lemma_path_more_fuel(store, x, (w - 1) as nat);
        assert(above == ancestors(store, x));
        assert(ancestors(store, c)->Ok_0.1 == p + seq![c]);
        lemma_descent_fits(store, included, c, (fuel - 1) as nat);
    };
}

/// On a store whose identifiers are unique, every page of a forest built by
/// adding hits can be pruned, so `get_subset_page_list` succeeds on it.
pub proof fn lemma_built_forest_prunes(store: Seq<RoamItem>, hits: Seq<(BlockId, Distance)>)
    requires
        ids_unique(store),
    ensures
        forall|t: Seq<char>|
            #[trigger] apply_hits(store, Map::empty(), hits).contains_key(t) ==> page_fits(
                store,
                t,
                apply_hits(store, Map::empty(), hits)[t],
            ),
{
    let f = apply_hits(store, Map::empty(), hits);
    lemma_apply_hits_resolved(store, hits);
    assert forall|t: Seq<char>| #[trigger] f.contains_key(t) implies page_fits(store, t, f[t]) by {
        let inc = f[t].included;
        assert forall|y: BlockId| #[trigger] inc.contains(y) implies ancestors(store, y) is Ok by {
            assert(f.contains_key(t) && f[t].included.contains(y));
        };
        let roots = included_children(store, OwnerView::RootOf(t), inc);
        assert forall|i: int| 0 <= i < roots.len() implies descent_fits(
            store,
            inc,
            #[trigger] roots[i],
            walk_limit(store),
        ) by {
            lemma_included_child_hangs(store, OwnerView::RootOf(t), inc, i);
            lemma_path_found(store, roots[i], walk_limit(store));
            lemma_descent_fits(store, inc, roots[i], walk_limit(store));
        };
    };
}

} // verus!
