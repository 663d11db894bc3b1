use cw_paginate::{FlatStore, KeysQuery, Page, PaginatedQuery};

fn filled_store(namespace: &str) -> FlatStore {
    let mut store = FlatStore::new(namespace);
    for i in 0..100u64 {
        store.save(i, &format!("string-{}", i)).unwrap();
    }
    store
}

#[test]
fn query_pagination_iterator() {
    let store = filled_store("test_map");

    assert_eq!(store.load(2).unwrap(), "string-2".to_string());

    let query: Page<20, u64> = Page { start: None, qty: None };

    let keys = query.keys(&store).unwrap();
    for i in 0..26usize {
        let key_op = keys.get(i);

        if i > 19 {
            assert!(key_op.is_none())
        } else {
            assert!(key_op.is_some());
            let key = key_op.unwrap();
            assert_eq!(*key, i as u64);
        }
    }

    let query: Page<20, u64> = Page { start: None, qty: Some(5) };

    let keys = query.keys(&store).unwrap();
    for i in 0..10usize {
        let key_op = keys.get(i);

        if i > 4 {
            assert!(key_op.is_none())
        } else {
            assert!(key_op.is_some());
            let key = key_op.unwrap();
            assert_eq!(*key, i as u64);
        }
    }

    let query: Page<20, u64> = Page { start: Some(5), qty: Some(5) };

    let keys = query.keys(&store).unwrap();
    for i in 6..17usize {
        let key_op = keys.get(i - 6);

        if i > 10 {
            assert!(key_op.is_none())
        } else {
            assert!(key_op.is_some());
            let key = key_op.unwrap();
            assert_eq!(*key, i as u64);
        }
    }
}

#[test]
fn pagination_iterator_ref() {
    let store = filled_store("test_map");

    assert_eq!(store.load(2).unwrap(), "string-2".to_string());

    let query: Page<20, u64> = Page { start: None, qty: None };

    let _ = query.keys(&store);
}

fn padded_store(namespace: &str) -> FlatStore {
    let mut store = FlatStore::new(namespace);
    for i in 0..100u64 {
        store.save(i, &format!("string-{:0>3}", i)).unwrap();
    }
    store
}

#[test]
fn query_into_pagination() {
    let store = padded_store("test_map");

    let query: Page<20, u64> = Page { start: None, qty: None };

    let res = query
        .into_pagination(&store, |_k, v| format!("new-{}", v))
        .unwrap();

    assert_eq!(res.qty, 20);
    assert_eq!(res.qty, res.data.len());
    assert!(res.next.is_some());

    assert_eq!(res.next, Some(19));
    assert_eq!(res.data.first().unwrap(), "new-string-000");
    assert_eq!(res.data.get(19).unwrap(), "new-string-019");

    let query: Page<30, u64> = Page { start: res.next, qty: Some(15) };

    let res = query.into_pagination(&store, |_k, v| v).unwrap();

    assert_eq!(res.qty, 15);
    assert_eq!(res.next, Some(34));
    assert_eq!(res.data.first().unwrap(), "string-020");
}

#[test]
fn into_pagination_ref() {
    let store = padded_store("test_map");

    let query: Page<20, u64> = Page { start: None, qty: None };

    let res = query
        .into_pagination(&store, |_k, v| format!("new-{}", v))
        .unwrap();

    assert_eq!(res.qty, 20);
    assert_eq!(res.qty, res.data.len());
    assert!(res.next.is_some());

    assert_eq!(res.next, Some(19));
    assert_eq!(res.data.first().unwrap(), "new-string-000");
    assert_eq!(res.data.get(19).unwrap(), "new-string-019");
}

#[test]
fn into_pagination_ref_static_map() {
    let store = padded_store("TEST_MAP");

    let query: Page<20, u64> = Page { start: None, qty: None };

    let res = query
        .into_pagination(&store, |_k, v| format!("new-{}", v))
        .unwrap();

    assert_eq!(res.qty, 20);
    assert_eq!(res.qty, res.data.len());
    assert!(res.next.is_some());

    assert_eq!(res.next, Some(19));
    assert_eq!(res.data.first().unwrap(), "new-string-000");
    assert_eq!(res.data.get(19).unwrap(), "new-string-019");
}
