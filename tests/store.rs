use rtb::db::{
    get_content_with_ancestors, get_embeddable_text, plan_roam_page, should_exclude_subtree,
    ImportStep, RoamItem, RoamPage,
};
use rtb::error::{ImportError, RetrievalError};
use rtb::roam::{BlockId, Item, Page};

fn id(text: &str) -> BlockId {
    BlockId::parse(text).unwrap()
}

fn item(uid: &str, text: &str, children: Vec<Item>) -> Item {
    Item {
        uid: id(uid),
        string: text.to_string(),
        create_time: Some(5),
        edit_time: None,
        children,
        edit_email: None,
        create_email: None,
    }
}

fn page(title: &str, children: Vec<Item>) -> Page {
    Page {
        title: title.to_string(),
        edit_time: 42,
        children,
        create_time: None,
        create_email: None,
        edit_email: None,
    }
}

fn stored(it: &RoamItem) -> (String, Option<String>, Option<String>, i32, String) {
    (
        it.id.to_text(),
        it.parent_page_id.clone(),
        it.parent_item_id.map(|p| p.to_text()),
        it.order_in_parent,
        it.contents.clone(),
    )
}

#[test]
fn plan_writes_items_in_order_and_skips_excluded() {
    let p = page(
        "Home",
        vec![
            item("AAAAAAAAA", "first", vec![item("BBBBBBBBB", "nested", vec![])]),
            item("CCCCCCCCC", "see [[Roam Third Brain/Exclude]]", vec![item("DDDDDDDDD", "hidden", vec![])]),
            item("EEEEEEEEE", "third", vec![]),
        ],
    );
    let (row, steps) = plan_roam_page(&p).unwrap();
    assert_eq!(row.title, "Home");
    assert_eq!(row.edit_time, 42);
    assert_eq!(row.create_time, None);
    assert_eq!(steps.len(), 4);
    match &steps[0] {
        ImportStep::Upsert(it) => {
            assert_eq!(stored(it), ("AAAAAAAAA".to_string(), Some("Home".to_string()), None, 0, "first".to_string()));
            assert_eq!(it.create_time, Some(5));
        }
        _ => panic!("expected an upsert"),
    }
    match &steps[1] {
        ImportStep::Upsert(it) => assert_eq!(
            stored(it),
            ("BBBBBBBBB".to_string(), None, Some("AAAAAAAAA".to_string()), 0, "nested".to_string())
        ),
        _ => panic!("expected an upsert"),
    }
    match &steps[2] {
        ImportStep::DeleteSubtree(gone) => assert_eq!(*gone, id("CCCCCCCCC")),
        _ => panic!("expected a deletion"),
    }
    match &steps[3] {
        ImportStep::Upsert(it) => assert_eq!(
            stored(it),
            ("EEEEEEEEE".to_string(), Some("Home".to_string()), None, 2, "third".to_string())
        ),
        _ => panic!("expected an upsert"),
    }
}

#[test]
fn plan_refuses_time_out_of_range() {
    let mut p = page("Home", vec![]);
    p.edit_time = u64::MAX;
    assert_eq!(plan_roam_page(&p).err(), Some(ImportError::TimeOutOfRange));
    let mut q = page("Home", vec![item("AAAAAAAAA", "x", vec![])]);
    q.children[0].edit_time = Some(1u64 << 63);
    assert_eq!(plan_roam_page(&q).err(), Some(ImportError::TimeOutOfRange));
}

#[test]
fn item_order_out_of_range() {
    let it = item("AAAAAAAAA", "x", vec![]);
    assert_eq!(
        RoamItem::try_from_roam_json_root("Home", &it, 1u64 << 31).err(),
        Some(ImportError::OrderOutOfRange)
    );
    let ok = RoamItem::try_from_roam_json_child(id("BBBBBBBBB"), &it, 7).unwrap();
    assert_eq!(stored(&ok), ("AAAAAAAAA".to_string(), None, Some("BBBBBBBBB".to_string()), 7, "x".to_string()));
    let row = RoamPage::try_from_roam_json(&page("P", vec![])).unwrap();
    assert_eq!(row.edit_time, 42);
}

#[test]
fn exclusion_marker_is_detected() {
    assert!(should_exclude_subtree(&item("AAAAAAAAA", "x [[Roam Third Brain/Exclude]] y", vec![])));
    assert!(!should_exclude_subtree(&item("AAAAAAAAA", "Roam Third Brain/Exclude", vec![])));
}

fn chain_store() -> Vec<RoamItem> {
    let mk = |uid: &str, page: Option<&str>, parent: Option<&str>, contents: &str| RoamItem {
        id: id(uid),
        parent_page_id: page.map(|p| p.to_string()),
        parent_item_id: parent.map(id),
        order_in_parent: 0,
        contents: contents.to_string(),
        create_time: None,
        edit_time: None,
    };
    vec![
        mk("AAAAAAAAA", Some("Garden"), None, "plants"),
        mk("BBBBBBBBB", None, Some("AAAAAAAAA"), "tomatoes"),
        mk("CCCCCCCCC", None, Some("BBBBBBBBB"), "water daily"),
    ]
}

#[test]
fn content_path_and_embeddable_text() {
    let store = chain_store();
    let (title, contents) = get_content_with_ancestors(&store, id("CCCCCCCCC")).unwrap();
    assert_eq!(title, "Garden");
    let contents: Vec<String> = contents.into_iter().collect();
    assert_eq!(contents, vec!["plants", "tomatoes", "water daily"]);
    let text = get_embeddable_text(&store, id("CCCCCCCCC")).unwrap();
    assert_eq!(text, "# Garden\n\n - plants\n\t - tomatoes\n\t\t - water daily\n");
}

#[test]
fn embeddable_text_of_missing_item_is_not_found() {
    let store = chain_store();
    assert_eq!(get_embeddable_text(&store, id("ZZZZZZZZZ")), Err(RetrievalError::NotFound));
}
