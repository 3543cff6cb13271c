use trapezoid::store::{ItemRow, StoreError, TagRow, TagStore};

fn s(v: &str) -> String {
    v.to_string()
}

#[test]
fn resolve_same_name_twice_gives_same_id() {
    let mut store = TagStore::new();
    let first = store.resolve_or_create_tag(&s("inbox")).unwrap();
    let second = store.resolve_or_create_tag(&s("inbox")).unwrap();
    assert_eq!(first, 1);
    assert_eq!(first, second);
    assert_eq!(store.tags().len(), 1);
    let other = store.resolve_or_create_tag(&s("work")).unwrap();
    assert_eq!(other, 2);
    assert_eq!(store.find_tag(&s("inbox")), Some(1));
    assert_eq!(store.find_tag(&s("none")), None);
}

#[test]
fn record_item_only_once() {
    let mut store = TagStore::new();
    let id = store.resolve_or_create_tag(&s("inbox")).unwrap();
    assert_eq!(store.record_item_if_absent(&s("/a.md"), id), Ok(true));
    assert_eq!(store.record_item_if_absent(&s("/a.md"), id), Ok(false));
    assert!(store.has_item(&s("/a.md"), id));
    assert_eq!(store.items().len(), 1);
    assert_eq!(store.items()[0].id, 1);
}

#[test]
fn record_item_with_unknown_tag_fails() {
    let mut store = TagStore::new();
    assert_eq!(store.record_item_if_absent(&s("/a.md"), 5), Err(StoreError::UnknownTag));
    assert_eq!(store.items().len(), 0);
}

#[test]
fn loaded_rows_keep_ids_and_advance_next() {
    let mut store = TagStore::new();
    assert_eq!(store.add_tag_row(TagRow { id: 7, name: s("old") }), Ok(()));
    assert_eq!(store.add_item_row(ItemRow { id: 30, path: s("/x"), tag: 7 }), Ok(()));
    assert_eq!(store.resolve_or_create_tag(&s("old")), Ok(7));
    assert_eq!(store.resolve_or_create_tag(&s("new")), Ok(8));
    assert_eq!(store.record_item_if_absent(&s("/x"), 8), Ok(true));
    assert_eq!(store.items()[1].id, 31);
}

#[test]
fn loading_refuses_bad_tag_rows() {
    let mut store = TagStore::new();
    store.add_tag_row(TagRow { id: 1, name: s("a") }).unwrap();
    assert_eq!(store.add_tag_row(TagRow { id: 0, name: s("b") }), Err(StoreError::InvalidId));
    assert_eq!(store.add_tag_row(TagRow { id: i64::MAX, name: s("b") }), Err(StoreError::InvalidId));
    assert_eq!(store.add_tag_row(TagRow { id: 2, name: s("a") }), Err(StoreError::DuplicateName));
    assert_eq!(store.add_tag_row(TagRow { id: 1, name: s("b") }), Err(StoreError::DuplicateId));
    assert_eq!(store.tags().len(), 1);
}

#[test]
fn loading_refuses_bad_item_rows() {
    let mut store = TagStore::new();
    store.add_tag_row(TagRow { id: 1, name: s("a") }).unwrap();
    store.add_item_row(ItemRow { id: 1, path: s("/p"), tag: 1 }).unwrap();
    assert_eq!(store.add_item_row(ItemRow { id: -3, path: s("/q"), tag: 1 }), Err(StoreError::InvalidId));
    assert_eq!(store.add_item_row(ItemRow { id: 2, path: s("/q"), tag: 9 }), Err(StoreError::UnknownTag));
    assert_eq!(store.add_item_row(ItemRow { id: 2, path: s("/p"), tag: 1 }), Err(StoreError::DuplicateItem));
    assert_eq!(store.add_item_row(ItemRow { id: 1, path: s("/q"), tag: 1 }), Err(StoreError::DuplicateId));
    assert_eq!(store.items().len(), 1);
}

#[test]
fn tag_ids_can_run_out() {
    let mut store = TagStore::new();
    store.add_tag_row(TagRow { id: i64::MAX - 1, name: s("last") }).unwrap();
    assert_eq!(store.resolve_or_create_tag(&s("last")), Ok(i64::MAX - 1));
    assert_eq!(store.resolve_or_create_tag(&s("more")), Err(StoreError::IdsExhausted));
    assert_eq!(store.tags().len(), 1);
}

#[test]
fn rollback_restores_marked_state() {
    let mut store = TagStore::new();
    store.resolve_or_create_tag(&s("a")).unwrap();
    let mark = store.begin();
    let id = store.resolve_or_create_tag(&s("b")).unwrap();
    store.record_item_if_absent(&s("/f"), id).unwrap();
    store.rollback(mark);
    assert_eq!(store.tags().len(), 1);
    assert_eq!(store.items().len(), 0);
    assert_eq!(store.resolve_or_create_tag(&s("c")), Ok(2));
}
