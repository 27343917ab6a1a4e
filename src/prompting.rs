//! The text of the pruned forest as it is handed to an answering model:
//! each page under its title, each item as an indented bullet with its
//! contents and a footnote reference to its identifier.
use vstd::prelude::*;

use crate::db::{contents_of, find_item, find_item_exec, tabs, walk_limit, RoamItem};
use crate::error::RetrievalError;
use crate::result_forest::{
    is_subset_page_list, lemma_subset_page_list_unique, page_fits, same_page, same_tree,
    subset_item_matches, subset_page_matches, ResultForest, ResultPageView, SubsetItem, SubsetPage,
};
use crate::roam::block_id_chars;

verus! {

/// The number of levels of `node`'s tree: one for `node`, and one more for
/// each level of children.
pub open spec fn height(node: SubsetItem) -> nat
    decreases node, 1nat, 0int,
{
    1 + children_height(node, node.children@.len() as int)
}

/// The largest height among the first `n` children of `parent`.
pub open spec fn children_height(parent: SubsetItem, n: int) -> nat
    decreases parent, 0nat, n,
{
    if n <= 0 || n > parent.children@.len() {
        0
    } else {
        let before = children_height(parent, n - 1);
        let last = height(parent.children@[n - 1]);
        if last > before {
            last
        } else {
            before
        }
    }
}

/// Every item of `node`'s tree is in the store.
pub open spec fn all_stored(store: Seq<RoamItem>, node: SubsetItem) -> bool
    decreases node,
{
    &&& find_item(store, node.id) is Some
    &&& forall|i: int|
        0 <= i < node.children@.len() ==> all_stored(store, #[trigger] node.children@[i])
}

/// The bullet of one item: indented, its contents, and a footnote that
/// references its identifier.
pub open spec fn item_line(store: Seq<RoamItem>, node: SubsetItem, indent: nat) -> Seq<char> {
    tabs(indent) + "- "@ + contents_of(store, node.id) + " [*]((("@ + block_id_chars(
        node.id.bytes@,
    ) + ")))"@
}

/// The text of `node`'s tree at depth `indent`: its bullet, then each
/// child's text on its own line, one tab deeper.
pub open spec fn item_prompt(store: Seq<RoamItem>, node: SubsetItem, indent: nat) -> Seq<char>
    decreases node, 1nat, 0int,
{
    item_line(store, node, indent) + children_prompt(
        store,
        node,
        indent + 1,
        node.children@.len() as int,
    )
}

/// The text of the first `n` children of `parent` at depth `indent`, each
/// on a new line.
pub open spec fn children_prompt(
    store: Seq<RoamItem>,
    parent: SubsetItem,
    indent: nat,
    n: int,
) -> Seq<char>
    decreases parent, 0nat, n,
{
    if n <= 0 || n > parent.children@.len() {
        Seq::empty()
    } else {
        children_prompt(store, parent, indent, n - 1) + "\n"@ + item_prompt(
            store,
            parent.children@[n - 1],
            indent,
        )
    }
}

/// The text of a page: its title as a page reference, then each root item's
/// text on its own line.
pub open spec fn page_prompt(store: Seq<RoamItem>, page: SubsetPage) -> Seq<char> {
    "[["@ + page.title@ + "]]"@ + pages_children_prompt(store, page, page.children@.len() as int)
}

/// The text of the first `n` root items of `page`, each on a new line.
pub open spec fn pages_children_prompt(store: Seq<RoamItem>, page: SubsetPage, n: int) -> Seq<char>
    decreases n,
{
    if n <= 0 || n > page.children@.len() {
        Seq::empty()
    } else {
        pages_children_prompt(store, page, n - 1) + "\n"@ + item_prompt(
            store,
            page.children@[n - 1],
            0,
        )
    }
}

proof fn lemma_children_height(parent: SubsetItem, n: int, i: int)
    requires
        0 <= i < n <= parent.children@.len(),
    ensures
        height(parent.children@[i]) <= children_height(parent, n),
    decreases n,
{
    if i < n - 1 {
        lemma_children_height(parent, n - 1, i);
    }
}

fn push_tabs(out: &mut String, n: usize)
    ensures
        final(out)@ == old(out)@ + tabs(n as nat),
{
    let mut t: usize = 0;
    assert(old(out)@ + tabs(0) =~= old(out)@);
    while t < n
        invariant
            t <= n,
            out@ == old(out)@ + tabs(t as nat),
        decreases n - t,
    {
        out.append("\t");
        proof {
            reveal_strlit("\t");
        }
        assert(old(out)@ + tabs((t + 1) as nat) =~= old(out)@ + tabs(t as nat) + "\t"@);
        t += 1;
    }
}

/// Appends the text of `item`'s tree at depth `indent`; fails if an item
/// of the tree is missing from the store.
pub fn format_result_item(
    out: &mut String,
    store: &Vec<RoamItem>,
    item: &SubsetItem,
    indent: usize,
) -> (r: Result<(), RetrievalError>)
    requires
        indent + height(*item) <= usize::MAX + 1,
    ensures
        r is Ok <==> all_stored(store@, *item),
        r is Ok ==> final(out)@ == old(out)@ + item_prompt(store@, *item, indent as nat),
        r is Err ==> r == Err::<(), RetrievalError>(RetrievalError::NotFound),
    decreases item,
{
    let k = match find_item_exec(store, item.id) {
        Some(k) => k,
        None => {
            return Err(RetrievalError::NotFound);
        },
    };
    let ghost start = out@;
    push_tabs(out, indent);
    out.append("- ");
    out.append(store[k].contents.as_str());
    out.append(" [*](((");
    let id_text = item.id.to_text();
    out.append(id_text.as_str());
    out.append(")))");
    let ghost line = item_line(store@, *item, indent as nat);
    assert(out@ == start + line);
    let mut i: usize = 0;
    while i < item.children.len()
        invariant
            i <= item.children@.len(),
            indent + height(*item) <= usize::MAX + 1,
            find_item(store@, item.id) is Some,
            forall|j: int| 0 <= j < i ==> all_stored(store@, #[trigger] item.children@[j]),
            out@ == start + line + children_prompt(store@, *item, indent as nat + 1, i as int),
        decreases item.children.len() - i,
    {
        proof {
            lemma_children_height(*item, item.children@.len() as int, i as int);
        }
        out.append("\n");
        assert(item.children@[i as int] == item.children[i as int]);
        let ghost before = out@;
        match format_result_item(out, store, &item.children[i], indent + 1) {
            Ok(()) => {},
            Err(e) => {
                return Err(e);
            },
        }
        proof {
            reveal_strlit("\n");
            let prior = children_prompt(store@, *item, indent as nat + 1, i as int);
            let child = item_prompt(store@, item.children@[i as int], indent as nat + 1);
            assert(before =~= start + line + prior + "\n"@);
            assert(children_prompt(store@, *item, indent as nat + 1, i + 1) == prior + "\n"@ + child);
            assert(out@ =~= start + line + children_prompt(store@, *item, indent as nat + 1, i + 1));
        }
        i += 1;
    }
    Ok(())
}

/// Every item of every tree of `page` is in the store.
pub open spec fn page_stored(store: Seq<RoamItem>, page: SubsetPage) -> bool {
    forall|i: int| 0 <= i < page.children@.len() ==> all_stored(store, #[trigger] page.children@[i])
}

/// The text of the first `n` pages of `ps`, one after another.
pub open spec fn pages_prompt(store: Seq<RoamItem>, ps: Seq<SubsetPage>, n: int) -> Seq<char>
    decreases n,
{
    if n <= 0 || n > ps.len() {
        Seq::empty()
    } else {
        pages_prompt(store, ps, n - 1) + page_prompt(store, ps[n - 1])
    }
}

proof fn lemma_matches_height(
    store: Seq<RoamItem>,
    page: ResultPageView,
    node: SubsetItem,
    fuel: nat,
)
    requires
        subset_item_matches(store, page, node, fuel),
    ensures
        height(node) <= fuel,
    decreases fuel, node.children@.len() + 1,
{
    lemma_children_height_bound(store, page, node, (fuel - 1) as nat, node.children@.len() as int);
}

proof fn lemma_children_height_bound(
    store: Seq<RoamItem>,
    page: ResultPageView,
    parent: SubsetItem,
    fuel: nat,
    n: int,
)
    requires
        forall|i: int|
            0 <= i < parent.children@.len() ==> subset_item_matches(
                store,
                page,
                #[trigger] parent.children@[i],
                fuel,
            ),
    ensures
        children_height(parent, n) <= fuel,
    decreases fuel + 1, n,
{
    if n > 0 && n <= parent.children@.len() {
        lemma_children_height_bound(store, page, parent, fuel, n - 1);
        lemma_matches_height(store, page, parent.children@[n - 1], fuel);
    }
}

/// Appends the text of a page: its title as a page reference, then each
/// root item's tree on its own line; fails if an item is missing from the
/// store.
pub fn format_result_page(out: &mut String, store: &Vec<RoamItem>, results: &SubsetPage) -> (r:
    Result<(), RetrievalError>)
    requires
        forall|i: int|
            0 <= i < results.children@.len() ==> height(#[trigger] results.children@[i])
                <= usize::MAX + 1,
    ensures
        r is Ok <==> page_stored(store@, *results),
        r is Ok ==> final(out)@ == old(out)@ + page_prompt(store@, *results),
        r is Err ==> r == Err::<(), RetrievalError>(RetrievalError::NotFound),
{
    let ghost start = out@;
    out.append("[[");
    out.append(results.title.as_str());
    out.append("]]");
    let ghost head = "[["@ + results.title@ + "]]"@;
    assert(out@ =~= start + head + pages_children_prompt(store@, *results, 0));
    let mut i: usize = 0;
    while i < results.children.len()
        invariant
            i <= results.children@.len(),
            forall|j: int|
                0 <= j < results.children@.len() ==> height(#[trigger] results.children@[j])
                    <= usize::MAX + 1,
            forall|j: int| 0 <= j < i ==> all_stored(store@, #[trigger] results.children@[j]),
            out@ == start + head + pages_children_prompt(store@, *results, i as int),
        decreases results.children.len() - i,
    {
        out.append("\n");
        let ghost before = out@;
        assert(height(results.children@[i as int]) <= usize::MAX + 1);
        match format_result_item(out, store, &results.children[i], 0) {
            Ok(()) => {},
            Err(e) => {
                return Err(e);
            },
        }
        proof {
            reveal_strlit("\n");
            let prior = pages_children_prompt(store@, *results, i as int);
            assert(before =~= start + head + prior + "\n"@);
            assert(out@ =~= start + head + pages_children_prompt(store@, *results, i + 1));
        }
        i += 1;
    }
    Ok(())
}

proof fn lemma_same_tree_stored(store: Seq<RoamItem>, a: SubsetItem, b: SubsetItem)
    requires
        same_tree(a, b),
    ensures
        all_stored(store, a) == all_stored(store, b),
    decreases a,
{
    assert forall|i: int| 0 <= i < a.children@.len() implies all_stored(
        store,
        #[trigger] a.children@[i],
    ) == all_stored(store, b.children@[i]) by {
        lemma_same_tree_stored(store, a.children@[i], b.children@[i]);
    };
    if all_stored(store, b) {
        assert forall|i: int| 0 <= i < a.children@.len() implies all_stored(
            store,
            #[trigger] a.children@[i],
        ) by {
            assert(all_stored(store, b.children@[i]));
        };
    }
    if all_stored(store, a) {
        assert forall|i: int| 0 <= i < b.children@.len() implies all_stored(
            store,
            #[trigger] b.children@[i],
        ) by {
            assert(all_stored(store, a.children@[i]));
        };
    }
}

proof fn lemma_same_tree_prompt(store: Seq<RoamItem>, a: SubsetItem, b: SubsetItem, indent: nat)
    requires
        same_tree(a, b),
    ensures
        item_prompt(store, a, indent) == item_prompt(store, b, indent),
    decreases a, 1nat, 0int,
{
    lemma_same_children_prompt(store, a, b, indent + 1, a.children@.len() as int);
}

proof fn lemma_same_children_prompt(
    store: Seq<RoamItem>,
    a: SubsetItem,
    b: SubsetItem,
    indent: nat,
    n: int,
)
    requires
        same_tree(a, b),
    ensures
        children_prompt(store, a, indent, n) == children_prompt(store, b, indent, n),
    decreases a, 0nat, n,
{
    if n > 0 && n <= a.children@.len() {
        lemma_same_children_prompt(store, a, b, indent, n - 1);
        assert(same_tree(a.children@[n - 1], b.children@[n - 1]));
        lemma_same_tree_prompt(store, a.children@[n - 1], b.children@[n - 1], indent);
    }
}

proof fn lemma_same_page_text(store: Seq<RoamItem>, a: SubsetPage, b: SubsetPage, n: int)
    requires
        same_page(a, b),
    ensures
        pages_children_prompt(store, a, n) == pages_children_prompt(store, b, n),
        page_stored(store, a) == page_stored(store, b),
    decreases n,
{
    if n > 0 && n <= a.children@.len() {
        lemma_same_page_text(store, a, b, n - 1);
        lemma_same_tree_prompt(store, a.children@[n - 1], b.children@[n - 1], 0);
    }
    assert forall|i: int| 0 <= i < a.children@.len() implies all_stored(
        store,
        #[trigger] a.children@[i],
    ) == all_stored(store, b.children@[i]) by {
        lemma_same_tree_stored(store, a.children@[i], b.children@[i]);
    };
    if page_stored(store, b) {
        assert forall|i: int| 0 <= i < a.children@.len() implies all_stored(
            store,
            #[trigger] a.children@[i],
        ) by {
            assert(all_stored(store, b.children@[i]));
        };
    }
    if page_stored(store, a) {
        assert forall|i: int| 0 <= i < b.children@.len() implies all_stored(
            store,
            #[trigger] b.children@[i],
        ) by {
            assert(all_stored(store, a.children@[i]));
        };
    }
}

proof fn lemma_same_pages_prompt(
    store: Seq<RoamItem>,
    ps1: Seq<SubsetPage>,
    ps2: Seq<SubsetPage>,
    n: int,
)
    requires
        ps1.len() == ps2.len(),
        forall|i: int| 0 <= i < ps1.len() ==> same_page(#[trigger] ps1[i], ps2[i]),
    ensures
        pages_prompt(store, ps1, n) == pages_prompt(store, ps2, n),
    decreases n,
{
    if n > 0 && n <= ps1.len() {
        lemma_same_pages_prompt(store, ps1, ps2, n - 1);
        assert(same_page(ps1[n - 1], ps2[n - 1]));
        lemma_same_page_text(store, ps1[n - 1], ps2[n - 1], ps1[n - 1].children@.len() as int);
    }
}

/// Every page of the forest can be pruned, and every item that the pruned
/// forest keeps is in the store.
pub open spec fn forest_formattable(
    store: Seq<RoamItem>,
    f: Map<Seq<char>, ResultPageView>,
) -> bool {
    &&& forall|t: Seq<char>| #[trigger] f.contains_key(t) ==> page_fits(store, t, f[t])
    &&& forall|ps: Seq<SubsetPage>|
        is_subset_page_list(store, f, ps) ==> forall|i: int|
            0 <= i < ps.len() ==> page_stored(store, #[trigger] ps[i])
}

/// The text of the whole pruned forest: each page's text in rank order.
/// Fails as building the pruned forest fails, or if an item is missing
/// from the store.
pub fn format_results(store: &Vec<RoamItem>, results: &ResultForest) -> (r: Result<
    String,
    RetrievalError,
>)
    requires
        results.wf(),
    ensures
        r is Ok <==> forest_formattable(store@, results@),
        r is Ok ==> forall|ps: Seq<SubsetPage>|
            is_subset_page_list(store@, results@, ps) ==> r->Ok_0@ == pages_prompt(
                store@,
                ps,
                ps.len() as int,
            ),
        !(forall|t: Seq<char>|
            #[trigger] results@.contains_key(t) ==> page_fits(store@, t, results@[t])) ==> r
            == Err::<String, RetrievalError>(RetrievalError::IntegrityViolation),
        (forall|t: Seq<char>|
            #[trigger] results@.contains_key(t) ==> page_fits(store@, t, results@[t])) && r is Err
            ==> r == Err::<String, RetrievalError>(RetrievalError::NotFound),
{
    let pages = match results.get_subset_page_list(store) {
        Ok(pages) => pages,
        Err(e) => {
            return Err(e);
        },
    };
    let stored_items = store.len();
    let mut out = String::new();
    let mut i: usize = 0;
    while i < pages.len()
        invariant
            i <= pages@.len(),
            stored_items == store@.len(),
            is_subset_page_list(store@, results@, pages@),
            forall|t: Seq<char>|
                #[trigger] results@.contains_key(t) ==> page_fits(store@, t, results@[t]),
            forall|j: int| 0 <= j < i ==> page_stored(store@, #[trigger] pages@[j]),
            out@ == pages_prompt(store@, pages@, i as int),
        decreases pages.len() - i,
    {
        let ghost page = pages@[i as int];
        proof {
            assert(subset_page_matches(store@, page.title@, results@[page.title@], page));
            assert forall|j: int| 0 <= j < page.children@.len() implies height(
                #[trigger] page.children@[j],
            ) <= usize::MAX + 1 by {
                lemma_matches_height(store@, results@[page.title@], page.children@[j], walk_limit(store@));
            };
        }
        match format_result_page(&mut out, store, &pages[i]) {
            Ok(()) => {},
            Err(e) => {
                assert(!page_stored(store@, pages@[i as int]));
                assert(!forest_formattable(store@, results@));
                return Err(e);
            },
        }
        proof {
            assert(out@ =~= pages_prompt(store@, pages@, i + 1));
        }
        i += 1;
    }
    proof {
        assert forall|ps: Seq<SubsetPage>| is_subset_page_list(store@, results@, ps) implies (forall|
            k: int,
        | 0 <= k < ps.len() ==> page_stored(store@, #[trigger] ps[k])) && out@ == pages_prompt(
            store@,
            ps,
            ps.len() as int,
        ) by {
            lemma_subset_page_list_unique(store@, results@, pages@, ps);
            assert forall|k: int| 0 <= k < ps.len() implies page_stored(store@, #[trigger] ps[k]) by {
                assert(same_page(pages@[k], ps[k]));
                lemma_same_page_text(store@, pages@[k], ps[k], 0);
            };
            lemma_same_pages_prompt(store@, pages@, ps, ps.len() as int);
        };
    }
    Ok(out)
}

} // verus!
