use cw_paginate::{FlatStore, Page, PaginatedQuery, PrefixPage, PrefixStore};

#[test]
fn empty_keyspace_page() {
    let store = FlatStore::new("empty");

    let query: Page<20, u64> = Page { start: None, qty: None };
    let res = query.into_pagination(&store, |k, v| (k, v)).unwrap();

    assert_eq!(res.qty, 0);
    assert!(res.data.is_empty());
    assert_eq!(res.next, None);
}

#[test]
fn empty_prefix_subkeyspace() {
    let mut store = PrefixStore::new("scoped");
    for s in 0..5u64 {
        store.save(2, s, &format!("other-{}", s)).unwrap();
    }

    let query: PrefixPage<20, u64, u64> = PrefixPage { prefix: 1, start: None, qty: None };
    let res = query.into_pagination(&store, |s, v| (s, v)).unwrap();

    assert_eq!(res.qty, 0);
    assert!(res.data.is_empty());
    assert_eq!(res.next, None);
}

#[test]
fn zero_limit_short_circuits() {
    let mut store = FlatStore::new("zero");
    for i in 0..10u64 {
        store.save(i, &format!("value-{}", i)).unwrap();
    }

    let query: Page<20, u64> = Page { start: None, qty: Some(0) };
    let res = query.into_pagination(&store, |k, _v| k).unwrap();

    assert_eq!(res.qty, 0);
    assert!(res.data.is_empty());
    assert_eq!(res.next, None);
}

#[test]
fn exact_fill_sets_cursor_then_trailing_empty_page() {
    let mut store = FlatStore::new("exact");
    for i in 0..20u64 {
        store.save(i, &format!("value-{}", i)).unwrap();
    }

    let query: Page<20, u64> = Page { start: None, qty: None };
    let res = query.into_pagination(&store, |k, _v| k).unwrap();

    assert_eq!(res.qty, 20);
    assert_eq!(res.next, Some(19));

    let query: Page<20, u64> = Page { start: res.next, qty: None };
    let res = query.into_pagination(&store, |k, _v| k).unwrap();

    assert_eq!(res.qty, 0);
    assert!(res.data.is_empty());
    assert_eq!(res.next, None);
}

#[test]
fn partial_window_has_no_cursor() {
    let mut store = FlatStore::new("partial");
    for i in 0..10u64 {
        store.save(i, &format!("value-{}", i)).unwrap();
    }

    let query: Page<20, u64> = Page { start: None, qty: None };
    let res = query.into_pagination(&store, |k, _v| k).unwrap();

    assert_eq!(res.qty, 10);
    assert_eq!(res.data, (0..10u64).collect::<Vec<u64>>());
    assert_eq!(res.next, None);
}

#[test]
fn start_cursor_excluded() {
    let mut store = FlatStore::new("excl");
    for i in 0..10u64 {
        store.save(i, &format!("value-{}", i)).unwrap();
    }

    let query: Page<20, u64> = Page { start: Some(4), qty: Some(3) };
    let res = query.into_pagination(&store, |k, _v| k).unwrap();

    assert_eq!(res.data, vec![5, 6, 7]);
    assert!(!res.data.contains(&4));
}

#[test]
fn default_versus_override() {
    let mut store = FlatStore::new("limits");
    for i in 0..60u64 {
        store.save(i, &format!("value-{}", i)).unwrap();
    }

    let query: Page<5, u64> = Page { start: None, qty: None };
    let res = query.into_pagination(&store, |k, _v| k).unwrap();
    assert_eq!(res.qty, 5);

    let query: Page<5, u64> = Page { start: None, qty: Some(10) };
    let res = query.into_pagination(&store, |k, _v| k).unwrap();
    assert_eq!(res.qty, 10);

    let query: Page<50, u64> = Page { start: None, qty: Some(3) };
    let res = query.into_pagination(&store, |k, _v| k).unwrap();
    assert_eq!(res.qty, 3);
}

#[test]
fn continuation_covers_keyspace() {
    let mut store = FlatStore::new("walk");
    for i in 0..30u64 {
        store.save(i, &format!("value-{}", i)).unwrap();
    }

    let mut seen: Vec<u64> = Vec::new();
    let mut start: Option<u64> = None;
    loop {
        let query: Page<7, u64> = Page { start, qty: None };
        let res = query.into_pagination(&store, |k, _v| k).unwrap();
        seen.extend(res.data.iter());
        match res.next {
            Some(cursor) => start = Some(cursor),
            None => break,
        }
    }

    assert_eq!(seen, (0..30u64).collect::<Vec<u64>>());
}

#[test]
fn prefix_continuation_covers_subkeyspace() {
    let mut store = PrefixStore::new("walk2");
    for s in 0..30u64 {
        store.save(4, s, &format!("value-{}", s)).unwrap();
        store.save(5, s, &format!("noise-{}", s)).unwrap();
    }

    let mut seen: Vec<u64> = Vec::new();
    let mut start: Option<u64> = None;
    loop {
        let query: PrefixPage<7, u64, u64> = PrefixPage { prefix: 4, start, qty: None };
        let res = query.into_pagination(&store, |s, _v| s).unwrap();
        seen.extend(res.data.iter());
        match res.next {
            Some(cursor) => start = Some(cursor),
            None => break,
        }
    }

    assert_eq!(seen, (0..30u64).collect::<Vec<u64>>());
}

#[test]
fn prefix_isolation() {
    let mut store = PrefixStore::new("mixed");
    for s in 0..5u64 {
        store.save(1, s, &format!("one-{}", s)).unwrap();
        store.save(2, s, &format!("two-{}", s)).unwrap();
    }

    let query: PrefixPage<10, u64, u64> = PrefixPage { prefix: 1, start: None, qty: None };
    let res = query.into_pagination(&store, |s, v| (s, v)).unwrap();

    assert_eq!(res.qty, 5);
    assert_eq!(res.next, None);
    for (i, (s, v)) in res.data.iter().enumerate() {
        assert_eq!(*s, i as u64);
        assert_eq!(v, &format!("one-{}", i));
    }
}

#[test]
fn prefix_cursor_is_suffix() {
    let mut store = PrefixStore::new("suffixes");
    for s in 10..20u64 {
        store.save(7, s, &format!("value-{}", s)).unwrap();
    }

    let query: PrefixPage<4, u64, u64> = PrefixPage { prefix: 7, start: None, qty: None };
    let res = query.into_pagination(&store, |s, _v| s).unwrap();

    assert_eq!(res.data, vec![10, 11, 12, 13]);
    assert_eq!(res.next, Some(13));

    let query: PrefixPage<4, u64, u64> = PrefixPage { prefix: 7, start: res.next, qty: None };
    let res = query.into_pagination(&store, |s, _v| s).unwrap();
    assert_eq!(res.data, vec![14, 15, 16, 17]);
}

#[test]
fn load_absent_key_errors() {
    let store = FlatStore::new("none");
    assert!(store.load(0).is_err());

    let scoped = PrefixStore::new("none2");
    assert!(scoped.load(1, 0).is_err());
}

#[test]
fn transform_sees_key_and_value_pairs() {
    let mut store = FlatStore::new("pairs");
    for i in 3..6u64 {
        store.save(i, &format!("value-{}", i)).unwrap();
    }

    let query: Page<10, u64> = Page { start: None, qty: None };
    let res = query.into_pagination(&store, |k, v| (k, v)).unwrap();

    assert_eq!(
        res.data,
        vec![
            (3, "value-3".to_string()),
            (4, "value-4".to_string()),
            (5, "value-5".to_string()),
        ]
    );
}
