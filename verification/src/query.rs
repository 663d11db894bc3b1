//! Page requests over the full keyspace.

use vstd::prelude::*;

use crate::pagespec::{effective_limit, next_cursor, page_seq};
use crate::store::{flat_view, FlatStore};
use crate::{maps_to, KeysQuery, NextPage, PageView, PaginatedQuery};

verus! {

/// A page request over the full keyspace: an optional exclusive start cursor
/// and an optional page-size override. `LIMIT` is the configured default
/// page size, used when no override is supplied.
pub struct Page<const LIMIT: usize, K> {
    pub start: Option<K>,
    pub qty: Option<usize>,
}

pub type DefaultPage<K> = Page<50, K>;

impl<const LIMIT: usize> PageView for Page<LIMIT, u64> {
    type Source = FlatStore;

    open spec fn scope(self, source: &FlatStore) -> Set<u64> {
        flat_view(*source).dom()
    }

    open spec fn value_at(self, source: &FlatStore, k: u64) -> Seq<char> {
        flat_view(*source)[k]
    }

    open spec fn start_of(self) -> Option<u64> {
        self.start
    }

    open spec fn limit_of(self) -> usize {
        effective_limit(self.qty, LIMIT)
    }
}

impl<const LIMIT: usize, D, F: Fn(u64, String) -> D> PaginatedQuery<D, F> for Page<LIMIT, u64> {
    fn into_pagination(self, source: &FlatStore, transform: F) -> (r: Result<
        NextPage<D, u64>,
        cosmwasm_std::StdError,
    >)
        ensures
            r matches Ok(page) ==> ({
                let dom = flat_view(*source).dom();
                let lim = effective_limit(self.qty, LIMIT);
                let win = page_seq(dom, self.start, lim as nat);
                &&& page.qty == page.data@.len()
                &&& page.qty <= lim
                &&& page.data@.len() == win.len()
                &&& page.next == next_cursor(dom, self.start, lim as nat)
                &&& forall|i: int|
                    0 <= i < win.len() ==> maps_to(
                        flat_view(*source)[win[i]],
                        transform,
                        win[i],
                        #[trigger] page.data@[i],
                    )
            }),
    {
        let limit: usize = match self.qty {
            Some(q) => q,
            None => LIMIT,
        };
        assert(limit == effective_limit(self.qty, LIMIT));
        let ghost dom = flat_view(*source).dom();
        let ghost win = page_seq(dom, self.start, limit as nat);

        let mut data: Vec<D> = Vec::new();
        let mut cursor: Option<u64> = self.start;
        let mut count: usize = 0;

        while count < limit
            invariant
                forall|k: u64, v: String| #[trigger] call_requires(transform, (k, v)),
                limit == effective_limit(self.qty, LIMIT),
                dom == flat_view(*source).dom(),
                win == page_seq(dom, self.start, limit as nat),
                count <= limit,
                count <= win.len(),
                data@.len() == count,
                page_seq(dom, cursor, (limit - count) as nat) == win.skip(count as int),
                count == 0 ==> cursor == self.start,
                count > 0 ==> cursor == Some(win[count - 1]),
                forall|i: int|
                    0 <= i < count ==> maps_to(
                        flat_view(*source)[win[i]],
                        transform,
                        win[i],
                        #[trigger] data@[i],
                    ),
            decreases limit - count,
        {
            match source.first_after(cursor)? {
                None => {
                    proof {
                        crate::pagespec::lemma_page_seq_exhausted(
                            dom,
                            cursor,
                            (limit - count) as nat,
                        );
                        assert(win.skip(count as int) =~= Seq::<u64>::empty());
                        assert(win =~= win.take(count as int));
                        assert(win.len() == count);
                    }
                    let qty = data.len();
                    return Ok(NextPage { data, next: None, qty });
                },
                Some((k, v)) => {
                    let ghost held: String = v;
                    proof {
                        crate::pagespec::lemma_page_seq_step(
                            dom,
                            cursor,
                            (limit - count) as nat,
                            k,
                        );
                        let rest = page_seq(dom, Some(k), ((limit - count) - 1) as nat);
                        assert(win.skip(count as int) == seq![k] + rest);
                        assert(win.skip(count as int)[0] == k);
                        assert(win[count as int] == k);
                        assert(win.len() >= count + 1);
                        assert(win.skip(count as int).skip(1) =~= rest);
                        assert(win.skip(count as int + 1) =~= win.skip(count as int).skip(1));
                    }
                    let ghost pre = data@;
                    let out = transform(k, v);
                    data.push(out);
                    cursor = Some(k);
                    count += 1;
                    proof {
                        assert(held@ == flat_view(*source)[win[count - 1]]);
                        assert(call_ensures(
                            transform,
                            (win[count - 1], held),
                            data@[count as int - 1],
                        ));
                        assert(maps_to(
                            flat_view(*source)[win[count - 1]],
                            transform,
                            win[count - 1],
                            data@[count as int - 1],
                        ));
                        assert forall|i: int|
                            0 <= i < count implies maps_to(
                            flat_view(*source)[win[i]],
                            transform,
                            win[i],
                            #[trigger] data@[i],
                        ) by {
                            if i < count - 1 {
                                assert(maps_to(flat_view(*source)[win[i]], transform, win[i], pre[i]));
                                assert(data@[i] == pre[i]);
                            }
                        }
                    }
                },
            }
        }
        proof {
            assert(win.skip(count as int) =~= Seq::<u64>::empty());
            assert(win =~= win.take(count as int));
            assert(win.len() == count);
        }
        let next: Option<u64> = if limit > 0 {
            cursor
        } else {
            None
        };
        let qty = data.len();
        Ok(NextPage { data, next, qty })
    }
}

impl<const LIMIT: usize> KeysQuery for Page<LIMIT, u64> {
    fn keys(self, source: &FlatStore) -> (r: Result<Vec<u64>, cosmwasm_std::StdError>)
        ensures
            r matches Ok(found) ==> found@ == page_seq(
                flat_view(*source).dom(),
                self.start,
                effective_limit(self.qty, LIMIT) as nat,
            ),
            effective_limit(self.qty, LIMIT) == 0 ==> r is Ok,
    {
        let ghost win = page_seq(
            flat_view(*source).dom(),
            self.start,
            effective_limit(self.qty, LIMIT) as nat,
        );
        let keep = |k: u64, _v: String| -> (kept: u64)
            ensures
                kept == k,
            { k };
        let res = self.into_pagination(source, keep);
        match res {
            Ok(page) => {
                proof {
                    assert forall|i: int| 0 <= i < win.len() implies page.data@[i] == win[i] by {
                        assert(maps_to(flat_view(*source)[win[i]], keep, win[i], page.data@[i]));
                        let v = choose|v: String|
                            v@ == flat_view(*source)[win[i]] && call_ensures(
                                keep,
                                (win[i], v),
                                page.data@[i],
                            );
                        assert(call_ensures(keep, (win[i], v), page.data@[i]));
                    }
                    assert(page.data@ =~= win);
                }
                Ok(page.data)
            },
            Err(e) => Err(e),
        }
    }
}

} // verus!
