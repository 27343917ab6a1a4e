//! The stored note collection: pages, items and item embeddings, as rows
//! of the store, and the walk from an item up to its page.
use vstd::prelude::*;

use std::collections::VecDeque;

use crate::embeddings::Embedding;
use crate::error::{ImportError, RetrievalError};
use crate::roam::{BlockId, Item, Page};

verus! {

/// One stored vector, with the text it was computed from.
pub struct ItemEmbedding {
    pub item_id: BlockId,
    pub embedded_text: String,
    pub embedding: Embedding,
}

/// One stored page.
pub struct RoamPage {
    pub title: String,
    pub create_time: Option<i64>,
    pub edit_time: i64,
}

/// One stored item. Exactly one of `parent_page_id` (a root item) and
/// `parent_item_id` (a child item) is set. A store lists its items with
/// siblings in authoring order.
pub struct RoamItem {
    pub id: BlockId,
    pub parent_page_id: Option<String>,
    pub parent_item_id: Option<BlockId>,
    pub order_in_parent: i32,
    pub contents: String,
    pub create_time: Option<i64>,
    pub edit_time: Option<i64>,
}

/// What an item hangs from.
#[derive(Clone, Debug)]
pub enum Owner {
    /// A root item of the page with this title.
    RootOf(String),
    /// A child of the item with this identifier.
    ChildOf(BlockId),
}

/// The owner of a stored item, as a view.
pub enum OwnerView {
    RootOf(Seq<char>),
    ChildOf(BlockId),
}

impl RoamItem {
    /// The item's owner, if exactly one owner column is set.
    pub open spec fn owner_view(self) -> Option<OwnerView> {
        match (self.parent_page_id, self.parent_item_id) {
            (Some(t), None) => Some(OwnerView::RootOf(t@)),
            (None, Some(p)) => Some(OwnerView::ChildOf(p)),
            _ => None,
        }
    }

    /// The item's owner; an item with both or neither owner set breaks the
    /// forest shape.
    pub fn owner(&self) -> (r: Result<Owner, RetrievalError>)
        ensures
            self.owner_view() is None ==> r == Err::<Owner, RetrievalError>(
                RetrievalError::IntegrityViolation,
            ),
            self.owner_view() is Some ==> r is Ok && owner_view(r->Ok_0)
                == self.owner_view()->Some_0,
    {
        match (&self.parent_page_id, &self.parent_item_id) {
            (Some(t), None) => Ok(Owner::RootOf(t.clone())),
            (None, Some(p)) => Ok(Owner::ChildOf(*p)),
            _ => Err(RetrievalError::IntegrityViolation),
        }
    }
}

/// The view of an owner.
pub open spec fn owner_view(o: Owner) -> OwnerView {
    match o {
        Owner::RootOf(t) => OwnerView::RootOf(t@),
        Owner::ChildOf(p) => OwnerView::ChildOf(p),
    }
}

/// The position of the first stored item with identifier `id`.
#[verifier::opaque]
pub open spec fn find_item(store: Seq<RoamItem>, id: BlockId) -> Option<int> {
    if exists|i: int| 0 <= i < store.len() && store[i].id == id {
        Some(
            choose|i: int|
                0 <= i < store.len() && store[i].id == id && forall|j: int|
                    0 <= j < i ==> store[j].id != id,
        )
    } else {
        None
    }
}

/// The walk from item `id` up to its page, taking at most `fuel` steps:
/// the page's title and the identifiers from the page's root item down to
/// `id` itself.
#[verifier::opaque]
pub open spec fn ancestor_path(store: Seq<RoamItem>, id: BlockId, fuel: nat) -> Result<
    (Seq<char>, Seq<BlockId>),
    RetrievalError,
>
    decreases fuel,
{
    if fuel == 0 {
        Err(RetrievalError::IntegrityViolation)
    } else {
        match find_item(store, id) {
            None => Err(RetrievalError::NotFound),
            Some(i) => match store[i].owner_view() {
                None => Err(RetrievalError::IntegrityViolation),
                Some(OwnerView::RootOf(title)) => Ok((title, seq![id])),
                Some(OwnerView::ChildOf(parent)) => match ancestor_path(store, parent, (fuel - 1) as nat) {
                    Ok((title, path)) => Ok((title, path.push(id))),
                    Err(e) => Err(e),
                },
            },
        }
    }
}

/// The most items a chain of parent links can visit in `store` without
/// repeating one: each stored item once, and one more lookup that may find
/// nothing. A longer walk can only be a cycle.
pub open spec fn walk_limit(store: Seq<RoamItem>) -> nat {
    store.len() + 1
}

/// The walk from item `id` up to its page, within the walk limit.
pub open spec fn ancestors(store: Seq<RoamItem>, id: BlockId) -> Result<
    (Seq<char>, Seq<BlockId>),
    RetrievalError,
> {
    ancestor_path(store, id, walk_limit(store))
}

/// `r` with `tail` appended to its path, if it is a path.
pub open spec fn extend_path(
    r: Result<(Seq<char>, Seq<BlockId>), RetrievalError>,
    tail: Seq<BlockId>,
) -> Result<(Seq<char>, Seq<BlockId>), RetrievalError> {
    match r {
        Ok((title, path)) => Ok((title, path + tail)),
        Err(e) => Err(e),
    }
}

/// Finds the first stored item with identifier `id`.
pub fn find_item_exec(store: &Vec<RoamItem>, id: BlockId) -> (r: Option<usize>)
    ensures
        r is None ==> find_item(store@, id) is None,
        r is Some ==> find_item(store@, id) == Some(r->Some_0 as int),
        r is Some ==> r->Some_0 < store@.len(),
{
    let mut i: usize = 0;
    while i < store.len()
        invariant
            i <= store@.len(),
            forall|j: int| 0 <= j < i ==> store@[j].id != id,
        decreases store.len() - i,
    {
        if store[i].id == id {
            let ghost found = i as int;
            assert(store@[found].id == id);
            assert(exists|k: int| 0 <= k < store@.len() && store@[k].id == id);
            assert(0 <= found < store@.len() && store@[found].id == id && forall|j: int|
                0 <= j < found ==> store@[j].id != id);
            let ghost c = choose|k: int|
                0 <= k < store@.len() && store@[k].id == id && forall|j: int|
                    0 <= j < k ==> store@[j].id != id;
            assert(c == found) by {
                if c < found {
                    assert(store@[c].id != id);
                } else if c > found {
                    assert(store@[found].id != id);
                }
            };
            proof {
                reveal(find_item);
            }
            assert(find_item(store@, id) == Some(found));
            return Some(i);
        }
        i += 1;
    }
    proof {
        reveal(find_item);
    }
    None
}

pub(crate) proof fn lemma_ancestor_step(store: Seq<RoamItem>, id: BlockId, fuel: nat, i: int)
    requires
        fuel > 0,
        find_item(store, id) == Some(i),
    ensures
        ancestor_path(store, id, fuel) == match store[i].owner_view() {
            None => Err(RetrievalError::IntegrityViolation),
            Some(OwnerView::RootOf(title)) => Ok((title, seq![id])),
            Some(OwnerView::ChildOf(parent)) => extend_path(
                ancestor_path(store, parent, (fuel - 1) as nat),
                seq![id],
            ),
        },
{
    reveal_with_fuel(ancestor_path, 2);
    match store[i].owner_view() {
        Some(OwnerView::ChildOf(parent)) => {
            match ancestor_path(store, parent, (fuel - 1) as nat) {
                Ok((t, p)) => {
                    assert(p.push(id) =~= p + seq![id]);
                },
                Err(_) => {},
            }
        },
        _ => {},
    }
}

proof fn lemma_extend_twice(
    r: Result<(Seq<char>, Seq<BlockId>), RetrievalError>,
    a: Seq<BlockId>,
    b: Seq<BlockId>,
)
    ensures
        extend_path(extend_path(r, a), b) == extend_path(r, a + b),
{
    match r {
        Ok((t, p)) => {
            assert(p + a + b =~= p + (a + b));
        },
        Err(_) => {},
    }
}

/// The path to an item: the title of its page and the identifiers from the
/// page's root item down to the item itself.
pub fn get_ancestor_ids(store: &Vec<RoamItem>, item: BlockId) -> (r: Result<
    (String, VecDeque<BlockId>),
    RetrievalError,
>)
    ensures
        match ancestors(store@, item) {
            Ok((title, path)) => r is Ok && r->Ok_0.0@ == title && r->Ok_0.1@ == path,
            Err(e) => r == Err::<(String, VecDeque<BlockId>), RetrievalError>(e),
        },
{
    let mut path: VecDeque<BlockId> = VecDeque::new();
    let mut current = item;
    // The walk may take `steps_left + 1` more lookups.
    let mut steps_left: usize = store.len();
    proof {
        match ancestor_path(store@, current, steps_left as nat + 1) {
            Ok((t, p)) => {
                assert(p + path@ =~= p);
            },
            Err(_) => {},
        }
    }
    loop
        invariant
            steps_left <= store@.len(),
            extend_path(ancestor_path(store@, current, steps_left as nat + 1), path@) == ancestors(
                store@,
                item,
            ),
        decreases steps_left,
    {
        let found = find_item_exec(store, current);
        let index = match found {
            None => {
                proof {
                    reveal(ancestor_path);
                }
                return Err(RetrievalError::NotFound);
            },
            Some(i) => i,
        };
        proof {
            lemma_ancestor_step(store@, current, steps_left as nat + 1, index as int);
        }
        let ghost old_path = path@;
        path.push_front(current);
        assert(path@ =~= seq![current] + old_path);
        match store[index].owner() {
            Err(e) => {
                return Err(e);
            },
            Ok(Owner::RootOf(title)) => {
                return Ok((title, path));
            },
            Ok(Owner::ChildOf(parent)) => {
                if steps_left == 0 {
                    proof {
                        reveal(ancestor_path);
                    }
                    return Err(RetrievalError::IntegrityViolation);
                }
                proof {
                    lemma_extend_twice(
                        ancestor_path(store@, parent, steps_left as nat),
                        seq![current],
                        old_path,
                    );
                }
                current = parent;
                steps_left = steps_left - 1;
            },
        }
    }
}

/// No two stored items share an identifier.
pub open spec fn ids_unique(store: Seq<RoamItem>) -> bool {
    forall|i: int, j: int|
        0 <= i < j < store.len() ==> #[trigger] store[i].id != #[trigger] store[j].id
}

/// With unique identifiers, the item found for an identifier is the one
/// that holds it.
pub(crate) proof fn lemma_find_unique(store: Seq<RoamItem>, k: int)
    requires
        ids_unique(store),
        0 <= k < store.len(),
    ensures
        find_item(store, store[k].id) == Some(k),
{
    reveal(find_item);
    let id = store[k].id;
    assert(exists|i: int| 0 <= i < store.len() && store[i].id == id);
    assert(0 <= k < store.len() && store[k].id == id && forall|j: int|
        0 <= j < k ==> store[j].id != id);
    let c = choose|i: int|
        0 <= i < store.len() && store[i].id == id && forall|j: int| 0 <= j < i ==> store[j].id != id;
    if c < k {
        assert(store[c].id != store[k].id);
    } else if c > k {
        assert(store[k].id != id);
    }
}

/// A walk that succeeds within `fuel` steps succeeds alike with one more.
pub(crate) proof fn lemma_path_more_fuel(store: Seq<RoamItem>, id: BlockId, fuel: nat)
    requires
        ancestor_path(store, id, fuel) is Ok,
    ensures
        ancestor_path(store, id, fuel + 1) == ancestor_path(store, id, fuel),
    decreases fuel,
{
    reveal_with_fuel(ancestor_path, 2);
    let i = find_item(store, id)->Some_0;
    match store[i].owner_view() {
        Some(OwnerView::ChildOf(parent)) => {
            lemma_path_more_fuel(store, parent, (fuel - 1) as nat);
        },
        _ => {},
    }
}

/// Every identifier on a resolved path resolves itself.
pub(crate) proof fn lemma_path_members_resolve(store: Seq<RoamItem>, id: BlockId, fuel: nat)
    requires
        ancestor_path(store, id, fuel) is Ok,
    ensures
        forall|i: int|
            0 <= i < ancestor_path(store, id, fuel)->Ok_0.1.len() ==> ancestor_path(
                store,
                #[trigger] ancestor_path(store, id, fuel)->Ok_0.1[i],
                fuel,
            ) is Ok,
    decreases fuel,
{
    reveal_with_fuel(ancestor_path, 2);
    let k = find_item(store, id)->Some_0;
    match store[k].owner_view() {
        Some(OwnerView::ChildOf(parent)) => {
            let below = (fuel - 1) as nat;
            lemma_path_members_resolve(store, parent, below);
            let pp = ancestor_path(store, parent, below)->Ok_0.1;
            let p = ancestor_path(store, id, fuel)->Ok_0.1;
            assert(p == pp.push(id));
            assert forall|i: int| 0 <= i < p.len() implies ancestor_path(
                store,
                #[trigger] p[i],
                fuel,
            ) is Ok by {
                if i < pp.len() {
                    assert(p[i] == pp[i]);
                    lemma_path_more_fuel(store, pp[i], below);
                }
            };
        },
        _ => {},
    }
}

/// A resolved path is no longer than the steps it may take.
pub(crate) proof fn lemma_path_length(store: Seq<RoamItem>, id: BlockId, fuel: nat)
    requires
        ancestor_path(store, id, fuel) is Ok,
    ensures
        ancestor_path(store, id, fuel)->Ok_0.1.len() <= fuel,
    decreases fuel,
{
    reveal_with_fuel(ancestor_path, 2);
    let k = find_item(store, id)->Some_0;
    match store[k].owner_view() {
        Some(OwnerView::ChildOf(parent)) => {
            lemma_path_length(store, parent, (fuel - 1) as nat);
        },
        _ => {},
    }
}

/// The contents of the first stored item with identifier `id`.
pub open spec fn contents_of(store: Seq<RoamItem>, id: BlockId) -> Seq<char> {
    store[find_item(store, id)->Some_0].contents@
}

/// Every identifier on a resolved path names a stored item.
pub(crate) proof fn lemma_path_found(store: Seq<RoamItem>, id: BlockId, fuel: nat)
    requires
        ancestor_path(store, id, fuel) is Ok,
    ensures
        forall|i: int|
            0 <= i < ancestor_path(store, id, fuel)->Ok_0.1.len() ==> find_item(
                store,
                #[trigger] ancestor_path(store, id, fuel)->Ok_0.1[i],
            ) is Some,
        ancestor_path(store, id, fuel)->Ok_0.1.len() > 0,
    decreases fuel,
{
    reveal_with_fuel(ancestor_path, 2);
    let i = find_item(store, id)->Some_0;
    match store[i].owner_view() {
        Some(OwnerView::ChildOf(parent)) => {
            lemma_path_found(store, parent, (fuel - 1) as nat);
            let path = ancestor_path(store, parent, (fuel - 1) as nat)->Ok_0.1;
            assert(ancestor_path(store, id, fuel)->Ok_0.1 == path.push(id));
        },
        _ => {},
    }
}

/// The path to an item as contents: the title of its page and the contents
/// of each item from the page's root item down to the item itself.
pub fn get_content_with_ancestors(store: &Vec<RoamItem>, item: BlockId) -> (r: Result<
    (String, VecDeque<String>),
    RetrievalError,
>)
    ensures
        match ancestors(store@, item) {
            Ok((title, path)) => r is Ok && r->Ok_0.0@ == title && r->Ok_0.1@.len() == path.len()
                && forall|i: int|
                0 <= i < path.len() ==> (#[trigger] r->Ok_0.1@[i])@ == contents_of(
                    store@,
                    path[i],
                ),
            Err(e) => r == Err::<(String, VecDeque<String>), RetrievalError>(e),
        },
{
    let (title, ids) = match get_ancestor_ids(store, item) {
        Ok(found) => found,
        Err(e) => {
            return Err(e);
        },
    };
    proof {
        lemma_path_found(store@, item, walk_limit(store@));
    }
    let mut contents: VecDeque<String> = VecDeque::new();
    let mut i: usize = 0;
    while i < ids.len()
        invariant
            i <= ids@.len(),
            ids@ == ancestors(store@, item)->Ok_0.1,
            forall|j: int| 0 <= j < ids@.len() ==> find_item(store@, #[trigger] ids@[j]) is Some,
            contents@.len() == i,
            forall|j: int|
                0 <= j < i ==> (#[trigger] contents@[j])@ == contents_of(store@, ids@[j]),
        decreases ids.len() - i,
    {
        let id = ids[i];
        assert(find_item(store@, ids@[i as int]) is Some);
        match find_item_exec(store, id) {
            Some(k) => {
                contents.push_back(store[k].contents.clone());
            },
            None => {
                return Err(RetrievalError::NotFound);
            },
        }
        i += 1;
    }
    Ok((title, contents))
}

/// `n` tab characters.
pub open spec fn tabs(n: nat) -> Seq<char> {
    Seq::new(n, |i: int| '\t')
}

/// The text embedded for an item: a heading with the page title, then one
/// bullet per item of the path, each indented one tab deeper.
pub open spec fn embeddable_text(title: Seq<char>, contents: Seq<Seq<char>>) -> Seq<char>
    decreases contents.len(),
{
    if contents.len() == 0 {
        "# "@ + title + "\n\n"@
    } else {
        embeddable_text(title, contents.drop_last()) + tabs((contents.len() - 1) as nat) + " - "@
            + contents.last() + "\n"@
    }
}

/// The ready-to-embed text for an item: its page title, and the contents of
/// each item on its path, indented by depth.
pub fn get_embeddable_text(store: &Vec<RoamItem>, item: BlockId) -> (r: Result<
    String,
    RetrievalError,
>)
    ensures
        match ancestors(store@, item) {
            Ok((title, path)) => r is Ok && r->Ok_0@ == embeddable_text(
                title,
                Seq::new(path.len(), |i: int| contents_of(store@, path[i])),
            ),
            Err(e) => r == Err::<String, RetrievalError>(e),
        },
{
    let (title, path) = match get_content_with_ancestors(store, item) {
        Ok(found) => found,
        Err(e) => {
            return Err(e);
        },
    };
    let ghost ids = ancestors(store@, item)->Ok_0.1;
    let ghost all = Seq::new(ids.len(), |i: int| contents_of(store@, ids[i]));
    let mut text = String::new();
    text.append("# ");
    text.append(title.as_str());
    text.append("\n\n");
    let mut i: usize = 0;
    assert(all.take(0) =~= Seq::<Seq<char>>::empty());
    while i < path.len()
        invariant
            i <= path@.len(),
            path@.len() == all.len(),
            forall|j: int| 0 <= j < path@.len() ==> (#[trigger] path@[j])@ == all[j],
            text@ == embeddable_text(title@, all.take(i as int)),
        decreases path.len() - i,
    {
        let mut t: usize = 0;
        while t < i
            invariant
                t <= i,
                text@ == embeddable_text(title@, all.take(i as int)) + tabs(t as nat),
            decreases i - t,
        {
            text.append("\t");
            proof {
                reveal_strlit("\t");
            }
            assert(tabs((t + 1) as nat) =~= tabs(t as nat) + "\t"@);
            t += 1;
        }
        text.append(" - ");
        text.append(path[i].as_str());
        text.append("\n");
        assert(all.take(i + 1).drop_last() =~= all.take(i as int));
        i += 1;
    }
    assert(all.take(all.len() as int) =~= all);
    Ok(text)
}

/// A time of the export fits the store's signed 64-bit column.
pub open spec fn time_fits(t: u64) -> bool {
    t <= i64::MAX
}

/// An optional time of the export fits the store's column.
pub open spec fn opt_time_fits(t: Option<u64>) -> bool {
    match t {
        Some(x) => time_fits(x),
        None => true,
    }
}

/// An optional time as the store holds it.
pub open spec fn opt_time(t: Option<u64>) -> Option<i64> {
    match t {
        Some(x) => Some(x as i64),
        None => None,
    }
}

fn convert_time(t: u64) -> (r: Result<i64, ImportError>)
    ensures
        time_fits(t) ==> r == Ok::<i64, ImportError>(t as i64),
        !time_fits(t) ==> r == Err::<i64, ImportError>(ImportError::TimeOutOfRange),
{
    if t <= i64::MAX as u64 {
        Ok(t as i64)
    } else {
        Err(ImportError::TimeOutOfRange)
    }
}

fn convert_opt_time(t: Option<u64>) -> (r: Result<Option<i64>, ImportError>)
    ensures
        opt_time_fits(t) ==> r == Ok::<Option<i64>, ImportError>(opt_time(t)),
        !opt_time_fits(t) ==> r == Err::<Option<i64>, ImportError>(ImportError::TimeOutOfRange),
{
    match t {
        Some(x) => match convert_time(x) {
            Ok(v) => Ok(Some(v)),
            Err(e) => Err(e),
        },
        None => Ok(None),
    }
}

impl RoamPage {
    /// The stored row for an exported page.
    pub fn try_from_roam_json(page: &Page) -> (r: Result<RoamPage, ImportError>)
        ensures
            time_fits(page.edit_time) && opt_time_fits(page.create_time) ==> r is Ok
                && r->Ok_0.title@ == page.title@ && r->Ok_0.edit_time == page.edit_time as i64
                && r->Ok_0.create_time == opt_time(page.create_time),
            !(time_fits(page.edit_time) && opt_time_fits(page.create_time)) ==> r == Err::<
                RoamPage,
                ImportError,
            >(ImportError::TimeOutOfRange),
    {
        let edit_time = match convert_time(page.edit_time) {
            Ok(t) => t,
            Err(e) => {
                return Err(e);
            },
        };
        let create_time = match convert_opt_time(page.create_time) {
            Ok(t) => t,
            Err(e) => {
                return Err(e);
            },
        };
        Ok(RoamPage { title: page.title.clone(), create_time, edit_time })
    }
}

/// A stored item row, as a view.
pub struct ItemRow {
    pub id: BlockId,
    pub owner: OwnerView,
    pub order_in_parent: i32,
    pub contents: Seq<char>,
    pub create_time: Option<i64>,
    pub edit_time: Option<i64>,
}

/// The row that an exported item becomes under `owner` at position
/// `order` among its siblings.
pub open spec fn item_row(owner: OwnerView, item: Item, order: int) -> Result<ItemRow, ImportError> {
    if order > i32::MAX {
        Err(ImportError::OrderOutOfRange)
    } else if !(opt_time_fits(item.create_time) && opt_time_fits(item.edit_time)) {
        Err(ImportError::TimeOutOfRange)
    } else {
        Ok(
            ItemRow {
                id: item.uid,
                owner,
                order_in_parent: order as i32,
                contents: item.string@,
                create_time: opt_time(item.create_time),
                edit_time: opt_time(item.edit_time),
            },
        )
    }
}

impl RoamItem {
    /// The item as a row view; `None` when both or neither owner is set.
    pub open spec fn row(self) -> Option<ItemRow> {
        match self.owner_view() {
            Some(owner) => Some(
                ItemRow {
                    id: self.id,
                    owner,
                    order_in_parent: self.order_in_parent,
                    contents: self.contents@,
                    create_time: self.create_time,
                    edit_time: self.edit_time,
                },
            ),
            None => None,
        }
    }

    fn from_roam_json(owner: &Owner, item: &Item, order: u64) -> (r: Result<RoamItem, ImportError>)
        ensures
            match item_row(owner_view(*owner), *item, order as int) {
                Ok(row) => r is Ok && r->Ok_0.row() == Some(row),
                Err(e) => r == Err::<RoamItem, ImportError>(e),
            },
    {
        if order > i32::MAX as u64 {
            return Err(ImportError::OrderOutOfRange);
        }
        let create_time = match convert_opt_time(item.create_time) {
            Ok(t) => t,
            Err(e) => {
                return Err(e);
            },
        };
        let edit_time = match convert_opt_time(item.edit_time) {
            Ok(t) => t,
            Err(e) => {
                return Err(e);
            },
        };
        let (parent_page_id, parent_item_id) = match owner {
            Owner::RootOf(title) => (Some(title.clone()), None),
            Owner::ChildOf(parent) => (None, Some(*parent)),
        };
        Ok(
            RoamItem {
                id: item.uid,
                parent_page_id,
                parent_item_id,
                order_in_parent: order as i32,
                contents: item.string.clone(),
                create_time,
                edit_time,
            },
        )
    }

    /// The stored row for a root item of page `page_title`, at position
    /// `order` among the page's root items.
    pub fn try_from_roam_json_root(page_title: &str, item: &Item, order: u64) -> (r: Result<
        RoamItem,
        ImportError,
    >)
        ensures
            match item_row(OwnerView::RootOf(page_title@), *item, order as int) {
                Ok(row) => r is Ok && r->Ok_0.row() == Some(row),
                Err(e) => r == Err::<RoamItem, ImportError>(e),
            },
    {
        let title = page_title.to_owned();
        RoamItem::from_roam_json(&Owner::RootOf(title), item, order)
    }

    /// The stored row for a child of item `parent_id`, at position `order`
    /// among its siblings.
    pub fn try_from_roam_json_child(parent_id: BlockId, item: &Item, order: u64) -> (r: Result<
        RoamItem,
        ImportError,
    >)
        ensures
            match item_row(OwnerView::ChildOf(parent_id), *item, order as int) {
                Ok(row) => r is Ok && r->Ok_0.row() == Some(row),
                Err(e) => r == Err::<RoamItem, ImportError>(e),
            },
    {
        RoamItem::from_roam_json(&Owner::ChildOf(parent_id), item, order)
    }
}

/// A block that references this page is left out of the store, together
/// with everything below it.
pub const EXCLUDE_PAGE: &'static str = "Roam Third Brain/Exclude";

/// The reference to the excluding page as it appears in a block's text.
pub const EXCLUDE_MARKER: &'static str = "[[Roam Third Brain/Exclude]]";

/// `pattern` occurs in `s` at some position.
pub open spec fn contains_text(s: Seq<char>, pattern: Seq<char>) -> bool {
    exists|i: int|
        0 <= i && i + pattern.len() <= s.len() && #[trigger] s.subrange(i, i + pattern.len())
            == pattern
}

/// Relies on str::contains with a string pattern: true exactly when the
/// pattern occurs in the text.
#[verifier::external_body]
fn text_contains(s: &str, pattern: &str) -> (r: bool)
    ensures
        r == contains_text(s@, pattern@),
{
    s.contains(pattern)
}

/// Whether this item and everything below it stay out of the store.
pub open spec fn is_excluded(item: Item) -> bool {
    contains_text(item.string@, EXCLUDE_MARKER@)
}

/// Whether this item and everything below it stay out of the store: its
/// text references the excluding page.
pub fn should_exclude_subtree(item: &Item) -> (r: bool)
    ensures
        r == is_excluded(*item),
{
    text_contains(item.string.as_str(), EXCLUDE_MARKER)
}

/// One write of an import, in the order the writes are made.
pub enum ImportStep {
    /// Insert the row, or overwrite the row with its identifier.
    Upsert(RoamItem),
    /// Delete the item with this identifier and everything below it.
    DeleteSubtree(BlockId),
}

/// A write of an import, as a view.
pub enum StepView {
    Upsert(ItemRow),
    DeleteSubtree(BlockId),
}

/// The view of a write; `None` for a row with both or neither owner set.
pub open spec fn step_view(s: ImportStep) -> Option<StepView> {
    match s {
        ImportStep::Upsert(it) => match it.row() {
            Some(row) => Some(StepView::Upsert(row)),
            None => None,
        },
        ImportStep::DeleteSubtree(id) => Some(StepView::DeleteSubtree(id)),
    }
}

/// The views of a list of writes.
pub open spec fn steps_view(s: Seq<ImportStep>) -> Seq<Option<StepView>> {
    s.map_values(|x: ImportStep| step_view(x))
}

/// The writes for one exported item placed under `owner` at position
/// `order`: an excluded item deletes its subtree; any other item is
/// upserted, followed by the writes for its children in order.
pub open spec fn item_steps(owner: OwnerView, item: Item, order: int) -> Result<
    Seq<Option<StepView>>,
    ImportError,
>
    decreases item, 1nat, 0int,
{
    if is_excluded(item) {
        Ok(seq![Some(StepView::DeleteSubtree(item.uid))])
    } else {
        match item_row(owner, item, order) {
            Err(e) => Err(e),
            Ok(row) => match children_steps(item, item.children@.len() as int) {
                Err(e) => Err(e),
                Ok(rest) => Ok(seq![Some(StepView::Upsert(row))] + rest),
            },
        }
    }
}

/// The writes for the first `n` children of `parent`, in order.
pub open spec fn children_steps(parent: Item, n: int) -> Result<
    Seq<Option<StepView>>,
    ImportError,
>
    decreases parent, 0nat, n,
{
    if n <= 0 || n > parent.children@.len() {
        Ok(Seq::empty())
    } else {
        match children_steps(parent, n - 1) {
            Err(e) => Err(e),
            Ok(before) => match item_steps(
                OwnerView::ChildOf(parent.uid),
                parent.children@[n - 1],
                n - 1,
            ) {
                Err(e) => Err(e),
                Ok(more) => Ok(before + more),
            },
        }
    }
}

/// The writes for the first `n` root items of `page`, in order.
pub open spec fn root_steps(page: Page, n: int) -> Result<Seq<Option<StepView>>, ImportError>
    decreases n,
{
    if n <= 0 || n > page.children@.len() {
        Ok(Seq::empty())
    } else {
        match root_steps(page, n - 1) {
            Err(e) => Err(e),
            Ok(before) => match item_steps(
                OwnerView::RootOf(page.title@),
                page.children@[n - 1],
                n - 1,
            ) {
                Err(e) => Err(e),
                Ok(more) => Ok(before + more),
            },
        }
    }
}

proof fn lemma_children_steps_stop(parent: Item, n: int, m: int)
    requires
        0 < n <= m <= parent.children@.len(),
        children_steps(parent, n) is Err,
    ensures
        children_steps(parent, m) == children_steps(parent, n),
    decreases m - n,
{
    if m > n {
        lemma_children_steps_stop(parent, n, m - 1);
    }
}

proof fn lemma_root_steps_stop(page: Page, n: int, m: int)
    requires
        0 < n <= m <= page.children@.len(),
        root_steps(page, n) is Err,
    ensures
        root_steps(page, m) == root_steps(page, n),
    decreases m - n,
{
    if m > n {
        lemma_root_steps_stop(page, n, m - 1);
    }
}

fn plan_item(owner: &Owner, item: &Item, order: usize, steps: &mut Vec<ImportStep>) -> (r: Result<
    (),
    ImportError,
>)
    ensures
        match item_steps(owner_view(*owner), *item, order as int) {
            Ok(more) => r is Ok && steps_view(final(steps)@) == steps_view(old(steps)@) + more,
            Err(e) => r == Err::<(), ImportError>(e),
        },
    decreases item, 1nat, 0int,
{
    if should_exclude_subtree(item) {
        let ghost before = steps@;
        steps.push(ImportStep::DeleteSubtree(item.uid));
        assert(steps_view(steps@) =~= steps_view(before) + seq![
            Some(StepView::DeleteSubtree(item.uid)),
        ]);
        return Ok(());
    }
    let row = match RoamItem::from_roam_json(owner, item, order as u64) {
        Ok(row) => row,
        Err(e) => {
            return Err(e);
        },
    };
    let ghost before = steps@;
    steps.push(ImportStep::Upsert(row));
    assert(steps_view(steps@) =~= steps_view(before).push(step_view(ImportStep::Upsert(row))));
    let ghost middle = steps@;
    match plan_children(item, steps) {
        Ok(()) => {
            assert(steps_view(middle) =~= steps_view(before) + seq![
                step_view(ImportStep::Upsert(row)),
            ]);
            Ok(())
        },
        Err(e) => Err(e),
    }
}

fn plan_children(parent: &Item, steps: &mut Vec<ImportStep>) -> (r: Result<(), ImportError>)
    ensures
        match children_steps(*parent, parent.children@.len() as int) {
            Ok(more) => r is Ok && steps_view(final(steps)@) == steps_view(old(steps)@) + more,
            Err(e) => r == Err::<(), ImportError>(e),
        },
    decreases parent, 0nat, parent.children@.len() + 1,
{
    let owner = Owner::ChildOf(parent.uid);
    let mut i: usize = 0;
    assert(steps_view(steps@) =~= steps_view(old(steps)@) + Seq::empty());
    while i < parent.children.len()
        invariant
            i <= parent.children@.len(),
            owner_view(owner) == OwnerView::ChildOf(parent.uid),
            children_steps(*parent, i as int) is Ok,
            steps_view(steps@) == steps_view(old(steps)@) + children_steps(*parent, i as int)->Ok_0,
        decreases parent.children.len() - i,
    {
        assert(parent.children@[i as int] == parent.children[i as int]);
        match plan_item(&owner, &parent.children[i], i, steps) {
            Ok(()) => {
                proof {
                    let prior = children_steps(*parent, i as int)->Ok_0;
                    let more = item_steps(
                        owner_view(owner),
                        parent.children@[i as int],
                        i as int,
                    )->Ok_0;
                    assert(steps_view(old(steps)@) + prior + more =~= steps_view(old(steps)@) + (
                    prior + more));
                }
            },
            Err(e) => {
                proof {
                    lemma_children_steps_stop(*parent, i + 1, parent.children@.len() as int);
                }
                return Err(e);
            },
        }
        i += 1;
    }
    Ok(())
}

/// The writes that load an exported page: its row, then for each root item
/// in order either the deletion of its excluded subtree or its row followed
/// by the writes for its children. The page row comes first and any
/// conversion error stops the plan.
pub fn plan_roam_page(page: &Page) -> (r: Result<(RoamPage, Vec<ImportStep>), ImportError>)
    ensures
        !(time_fits(page.edit_time) && opt_time_fits(page.create_time)) ==> r == Err::<
            (RoamPage, Vec<ImportStep>),
            ImportError,
        >(ImportError::TimeOutOfRange),
        time_fits(page.edit_time) && opt_time_fits(page.create_time) ==> match root_steps(
            *page,
            page.children@.len() as int,
        ) {
            Ok(all) => r is Ok && r->Ok_0.0.title@ == page.title@ && r->Ok_0.0.edit_time
                == page.edit_time as i64 && r->Ok_0.0.create_time == opt_time(page.create_time)
                && steps_view(r->Ok_0.1@) == all,
            Err(e) => r == Err::<(RoamPage, Vec<ImportStep>), ImportError>(e),
        },
{
    let row = match RoamPage::try_from_roam_json(page) {
        Ok(row) => row,
        Err(e) => {
            return Err(e);
        },
    };
    let owner = Owner::RootOf(page.title.clone());
    let mut steps: Vec<ImportStep> = Vec::new();
    let mut i: usize = 0;
    assert(steps_view(steps@) =~= Seq::<Option<StepView>>::empty());
    while i < page.children.len()
        invariant
            i <= page.children@.len(),
            time_fits(page.edit_time) && opt_time_fits(page.create_time),
            row.title@ == page.title@ && row.edit_time == page.edit_time as i64 && row.create_time
                == opt_time(page.create_time),
            owner_view(owner) == OwnerView::RootOf(page.title@),
            root_steps(*page, i as int) is Ok,
            steps_view(steps@) == root_steps(*page, i as int)->Ok_0,
        decreases page.children.len() - i,
    {
        match plan_item(&owner, &page.children[i], i, &mut steps) {
            Ok(()) => {},
            Err(e) => {
                proof {
                    lemma_root_steps_stop(*page, i + 1, page.children@.len() as int);
                }
                return Err(e);
            },
        }
        i += 1;
    }
    Ok((row, steps))
}

} // verus!