use cw_paginate::{KeysQuery, PaginatedQuery, PrefixPage, PrefixStore};

#[test]
fn prefix_pagination_iterator() {
    let mut store = PrefixStore::new("test_map");
    for i in 0..100u64 {
        store.save(1, i, &format!("string-{}", i)).unwrap();
    }

    assert_eq!(store.load(1, 2).unwrap(), "string-2".to_string());

    let query: PrefixPage<20, u64, u64> = PrefixPage { prefix: 1, start: None, qty: None };

    let keys = query.keys(&store).unwrap();
    for i in 0..26usize {
        let key_op = keys.get(i);

        if i > 19 {
            assert!(key_op.is_none())
        } else {
            assert!(key_op.is_some());
            let key = key_op.unwrap();
            assert_eq!(*key, i as u64);
        }
    }

    let query: PrefixPage<20, u64, u64> = PrefixPage { prefix: 1, start: None, qty: Some(5) };

    let keys = query.keys(&store).unwrap();
    for i in 0..10usize {
        let key_op = keys.get(i);

        if i > 4 {
            assert!(key_op.is_none())
        } else {
            assert!(key_op.is_some());
            let key = key_op.unwrap();
            assert_eq!(*key, i as u64);
        }
    }

    let query: PrefixPage<20, u64, u64> = PrefixPage { prefix: 1, start: Some(5), qty: Some(5) };

    let keys = query.keys(&store).unwrap();
    for i in 6..17usize {
        let key_op = keys.get(i - 6);

        if i > 10 {
            assert!(key_op.is_none())
        } else {
            assert!(key_op.is_some());
            let key = key_op.unwrap();
            assert_eq!(*key, i as u64);
        }
    }
}

#[test]
fn prefix_into_pagination() {
    let mut store = PrefixStore::new("test_map");
    for i in 0..100u64 {
        store.save(1, i, &format!("string-{:0>3}", i)).unwrap();
    }

    let query: PrefixPage<20, u64, u64> = PrefixPage { prefix: 1, start: None, qty: None };

    let res = query
        .into_pagination(&store, |_s, v| format!("new-{}", v))
        .unwrap();

    assert_eq!(res.qty, 20);
    assert_eq!(res.qty, res.data.len());
    assert!(res.next.is_some());

    assert_eq!(res.next, Some(19));
    assert_eq!(res.data.first().unwrap(), "new-string-000");
    assert_eq!(res.data.get(19).unwrap(), "new-string-019");

    let query: PrefixPage<30, u64, u64> = PrefixPage { prefix: 1, start: res.next, qty: Some(15) };

    let res = query.into_pagination(&store, |_s, v| v).unwrap();

    assert_eq!(res.qty, 15);
    assert_eq!(res.next, Some(34));
    assert_eq!(res.data.first().unwrap(), "string-020");
}
