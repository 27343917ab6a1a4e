use rtb::db::{get_ancestor_ids, RoamItem};
use rtb::error::RetrievalError;
use rtb::prompting::format_results;
use rtb::result_forest::{ResultForest, SubsetItem, SubsetPage};
use rtb::roam::BlockId;
use rtb::search::Distance;

fn id(text: &str) -> BlockId {
    BlockId::parse(text).unwrap()
}

fn dist(value: f32) -> Distance {
    Distance::try_from_bits(value.to_bits()).unwrap()
}

fn root(item: &str, page: &str, order: i32, contents: &str) -> RoamItem {
    RoamItem {
        id: id(item),
        parent_page_id: Some(page.to_string()),
        parent_item_id: None,
        order_in_parent: order,
        contents: contents.to_string(),
        create_time: None,
        edit_time: None,
    }
}

fn child(item: &str, parent: &str, order: i32, contents: &str) -> RoamItem {
    RoamItem {
        id: id(item),
        parent_page_id: None,
        parent_item_id: Some(id(parent)),
        order_in_parent: order,
        contents: contents.to_string(),
        create_time: None,
        edit_time: None,
    }
}

const A: &str = "AAAAAAAAA";
const B: &str = "BBBBBBBBB";
const C: &str = "CCCCCCCCC";

fn alpha_beta_store() -> Vec<RoamItem> {
    vec![root(A, "Alpha", 0, "intro"), child(B, A, 0, "detail"), root(C, "Beta", 0, "note")]
}

/// A comparable rendering of a pruned item tree.
fn shape(item: &SubsetItem) -> String {
    let d = match item.distance {
        Some(d) => format!("{}", d.to_bits()),
        None => "-".to_string(),
    };
    let inner: Vec<String> = item.children.iter().map(shape).collect();
    format!("{}:{}[{}]", item.id.to_text(), d, inner.join(","))
}

fn page_shapes(pages: &[SubsetPage]) -> Vec<String> {
    pages
        .iter()
        .map(|p| {
            let inner: Vec<String> = p.children.iter().map(shape).collect();
            format!("{}@{}[{}]", p.title, p.min_distance.to_bits(), inner.join(","))
        })
        .collect()
}

fn forest_of(store: &Vec<RoamItem>, hits: &[(&str, f32)]) -> Vec<String> {
    let mut forest = ResultForest::new();
    for (item, d) in hits {
        forest.add_item(store, id(item), dist(*d)).unwrap();
    }
    page_shapes(&forest.get_subset_page_list(store).unwrap())
}

#[test]
fn alpha_beta_forest() {
    let store = alpha_beta_store();
    let mut forest = ResultForest::new();
    forest.add_item(&store, id(B), dist(0.10)).unwrap();
    forest.add_item(&store, id(C), dist(0.30)).unwrap();
    let pages = forest.get_subset_page_list(&store).unwrap();
    assert_eq!(pages.len(), 2);
    assert_eq!(pages[0].title, "Alpha");
    assert_eq!(pages[0].min_distance, dist(0.10));
    assert_eq!(pages[1].title, "Beta");
    assert_eq!(pages[1].min_distance, dist(0.30));
    assert_eq!(pages[0].children.len(), 1);
    let a = &pages[0].children[0];
    assert_eq!(a.id, id(A));
    assert_eq!(a.distance, None);
    assert_eq!(a.children.len(), 1);
    assert_eq!(a.children[0].id, id(B));
    assert_eq!(a.children[0].distance, Some(dist(0.10)));
    assert!(a.children[0].children.is_empty());
    assert_eq!(pages[1].children.len(), 1);
    assert_eq!(pages[1].children[0].id, id(C));
    assert_eq!(pages[1].children[0].distance, Some(dist(0.30)));
}

#[test]
fn forest_ignores_hit_order() {
    let store = alpha_beta_store();
    let one = forest_of(&store, &[(B, 0.10), (C, 0.30), (A, 0.5)]);
    let two = forest_of(&store, &[(C, 0.30), (A, 0.5), (B, 0.10)]);
    let three = forest_of(&store, &[(A, 0.5), (B, 0.10), (C, 0.30)]);
    assert_eq!(one, two);
    assert_eq!(one, three);
}

#[test]
fn repeated_hit_changes_nothing() {
    let store = alpha_beta_store();
    let once = forest_of(&store, &[(B, 0.10), (C, 0.30)]);
    let twice = forest_of(&store, &[(B, 0.10), (B, 0.10), (C, 0.30)]);
    assert_eq!(once, twice);
}

#[test]
fn later_distance_replaces_earlier_for_same_item() {
    let store = alpha_beta_store();
    let pages = forest_of(&store, &[(B, 0.10), (B, 0.40)]);
    let expected = format!(
        "Alpha@{}[{}:-[{}:{}[]]]",
        0.10f32.to_bits(),
        A,
        B,
        0.40f32.to_bits()
    );
    assert_eq!(pages, vec![expected]);
}

fn check(store: &[RoamItem], node: &SubsetItem, page: Option<&str>, parent: Option<BlockId>) {
    let stored = store.iter().find(|it| it.id == node.id).unwrap();
    assert_eq!(stored.parent_page_id.as_deref(), page);
    assert_eq!(stored.parent_item_id, parent);
    for c in &node.children {
        check(store, c, None, Some(node.id));
    }
}

#[test]
fn pruned_items_hang_from_their_parents() {
    let store = vec![
        root(A, "Alpha", 0, "intro"),
        child(B, A, 0, "detail"),
        child("DDDDDDDDD", A, 1, "aside"),
        child("EEEEEEEEE", B, 0, "deeper"),
        root(C, "Alpha", 1, "second"),
    ];
    let mut forest = ResultForest::new();
    forest.add_item(&store, id("EEEEEEEEE"), dist(0.2)).unwrap();
    forest.add_item(&store, id(C), dist(0.6)).unwrap();
    let pages = forest.get_subset_page_list(&store).unwrap();
    assert_eq!(pages.len(), 1);
    let ids: Vec<String> = pages[0].children.iter().map(|c| c.id.to_text()).collect();
    assert_eq!(ids, vec![A.to_string(), C.to_string()]);
    for c in &pages[0].children {
        check(&store, c, Some("Alpha"), None);
    }
    // The sibling that holds no hit is left out.
    assert_eq!(pages[0].children[0].children.len(), 1);
}

#[test]
fn equal_distances_order_pages_by_title() {
    let store = vec![root(A, "Zeta", 0, "z"), root(B, "Eta", 0, "e"), root(C, "Mu", 0, "m")];
    let pages = forest_of(&store, &[(A, 0.25), (B, 0.25), (C, 0.25)]);
    let titles: Vec<&str> = pages.iter().map(|p| p.split('@').next().unwrap()).collect();
    assert_eq!(titles, vec!["Eta", "Mu", "Zeta"]);
}

#[test]
fn unknown_item_is_not_found() {
    let store = alpha_beta_store();
    let mut forest = ResultForest::new();
    assert_eq!(
        forest.add_item(&store, id("ZZZZZZZZZ"), dist(0.1)),
        Err(RetrievalError::NotFound)
    );
    assert!(forest.get_subset_page_list(&store).unwrap().is_empty());
}

#[test]
fn item_with_two_owners_is_an_integrity_violation() {
    let mut bad = child(B, A, 0, "detail");
    bad.parent_page_id = Some("Alpha".to_string());
    let store = vec![root(A, "Alpha", 0, "intro"), bad];
    let mut forest = ResultForest::new();
    assert_eq!(
        forest.add_item(&store, id(B), dist(0.1)),
        Err(RetrievalError::IntegrityViolation)
    );
}

#[test]
fn parent_cycle_is_an_integrity_violation() {
    let store = vec![child(A, B, 0, "one"), child(B, A, 0, "two")];
    assert_eq!(
        get_ancestor_ids(&store, id(A)).err(),
        Some(RetrievalError::IntegrityViolation)
    );
}

#[test]
fn ancestor_path_runs_from_page_root() {
    let store = vec![
        root(A, "Alpha", 0, "intro"),
        child(B, A, 0, "detail"),
        child(C, B, 0, "leaf"),
    ];
    let (title, path) = get_ancestor_ids(&store, id(C)).unwrap();
    assert_eq!(title, "Alpha");
    let path: Vec<BlockId> = path.into_iter().collect();
    assert_eq!(path, vec![id(A), id(B), id(C)]);
}

#[test]
fn prompt_text_of_forest() {
    let store = alpha_beta_store();
    let mut forest = ResultForest::new();
    forest.add_item(&store, id(B), dist(0.10)).unwrap();
    forest.add_item(&store, id(C), dist(0.30)).unwrap();
    let text = format_results(&store, &forest).unwrap();
    assert_eq!(
        text,
        "[[Alpha]]\n- intro [*](((AAAAAAAAA)))\n\t- detail [*](((BBBBBBBBB)))[[Beta]]\n- note [*](((CCCCCCCCC)))"
    );
}

#[test]
fn page_and_item_subsets_directly() {
    let store = alpha_beta_store();
    let mut forest = ResultForest::new();
    forest.add_item(&store, id(B), dist(0.10)).unwrap();
    assert_eq!(forest.pages.len(), 1);
    let page = &forest.pages[0];
    let item = page.get_subset_item(&store, id(A)).unwrap();
    assert_eq!(shape(&item), format!("{}:-[{}:{}[]]", A, B, 0.10f32.to_bits()));
    let sp = page.get_subset_page(&store).unwrap();
    assert_eq!(sp.title, "Alpha");
    assert_eq!(sp.children.len(), 1);
    assert_eq!(shape(&sp.children[0]), shape(&item));
}

#[test]
fn default_forest_is_empty() {
    let store = alpha_beta_store();
    let forest = ResultForest::default();
    assert!(forest.get_subset_page_list(&store).unwrap().is_empty());
    assert_eq!(format_results(&store, &forest).unwrap(), "");
}

#[test]
fn empty_store_reports_not_found() {
    let store: Vec<RoamItem> = vec![];
    let mut forest = ResultForest::new();
    assert_eq!(forest.add_item(&store, id(A), dist(0.1)), Err(RetrievalError::NotFound));
    assert_eq!(get_ancestor_ids(&store, id(A)).err(), Some(RetrievalError::NotFound));
}

#[test]
fn missing_parent_at_end_of_full_chain_is_not_found() {
    let store = vec![child(A, B, 0, "one"), child(B, C, 0, "two")];
    assert_eq!(get_ancestor_ids(&store, id(A)).err(), Some(RetrievalError::NotFound));
}

#[test]
fn subset_item_on_empty_store_has_no_children() {
    let store = alpha_beta_store();
    let mut forest = ResultForest::new();
    forest.add_item(&store, id(C), dist(0.3)).unwrap();
    let empty: Vec<RoamItem> = vec![];
    let item = forest.pages[0].get_subset_item(&empty, id(C)).unwrap();
    assert_eq!(shape(&item), format!("{}:{}[]", C, 0.3f32.to_bits()));
}
