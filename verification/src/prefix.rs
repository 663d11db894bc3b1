//! Page requests scoped to one key prefix.
//!
//! A composite key decomposes into a prefix and a suffix; fixing the prefix
//! restricts the scan to the contiguous sub-range of keys that carry it.
//! Cursors of these requests are expressed purely as suffixes: the prefix is
//! fixed by the request and carries no further information.

use vstd::prelude::*;

use crate::pagespec::{chain_seq, effective_limit, keys_past, next_cursor, page_seq, sub_keys};
use crate::store::{prefix_view, PrefixStore};
use crate::{maps_to, KeysQuery, NextPage, PageView, PaginatedQuery};

verus! {

/// A page request over the sub-keyspace of one prefix: the fixed prefix, an
/// optional exclusive start cursor (a suffix), and an optional page-size
/// override. `LIMIT` is the configured default page size.
pub struct PrefixPage<const LIMIT: usize, P, S> {
    pub prefix: P,
    pub start: Option<S>,
    pub qty: Option<usize>,
}

pub type DefaultPrefixPage<P, S> = PrefixPage<50, P, S>;

impl<const LIMIT: usize> PageView for PrefixPage<LIMIT, u64, u64> {
    type Source = PrefixStore;

    open spec fn scope(self, source: &PrefixStore) -> Set<u64> {
        sub_keys(prefix_view(*source), self.prefix)
    }

    open spec fn value_at(self, source: &PrefixStore, k: u64) -> Seq<char> {
        prefix_view(*source)[(self.prefix, k)]
    }

    open spec fn start_of(self) -> Option<u64> {
        self.start
    }

    open spec fn limit_of(self) -> usize {
        effective_limit(self.qty, LIMIT)
    }
}

impl<const LIMIT: usize, D, F: Fn(u64, String) -> D> PaginatedQuery<D, F> for PrefixPage<
    LIMIT,
    u64,
    u64,
> {
    fn into_pagination(self, store: &PrefixStore, transform: F) -> (r: Result<
        NextPage<D, u64>,
        cosmwasm_std::StdError,
    >)
        ensures
            r matches Ok(page) ==> ({
                let sub = sub_keys(prefix_view(*store), self.prefix);
                let lim = effective_limit(self.qty, LIMIT);
                let win = page_seq(sub, self.start, lim as nat);
                &&& page.qty == page.data@.len()
                &&& page.qty <= lim
                &&& page.data@.len() == win.len()
                &&& page.next == next_cursor(sub, self.start, lim as nat)
                &&& forall|i: int|
                    0 <= i < win.len() ==> maps_to(
                        prefix_view(*store)[(self.prefix, win[i])],
                        transform,
                        win[i],
                        #[trigger] page.data@[i],
                    )
            }),
    {
        let limit: usize = match self.qty {
            Some(q) => q,
            None => LIMIT,
        };
        assert(limit == effective_limit(self.qty, LIMIT));
        let ghost sub = sub_keys(prefix_view(*store), self.prefix);
        let ghost win = page_seq(sub, self.start, limit as nat);

        let mut data: Vec<D> = Vec::new();
        let mut cursor: Option<u64> = self.start;
        let mut count: usize = 0;

        while count < limit
            invariant
                forall|s: u64, v: String| #[trigger] call_requires(transform, (s, v)),
                limit == effective_limit(self.qty, LIMIT),
                sub == sub_keys(prefix_view(*store), self.prefix),
                win == page_seq(sub, self.start, limit as nat),
                count <= limit,
                count <= win.len(),
                data@.len() == count,
                page_seq(sub, cursor, (limit - count) as nat) == win.skip(count as int),
                count == 0 ==> cursor == self.start,
                count > 0 ==> cursor == Some(win[count - 1]),
                forall|i: int|
                    0 <= i < count ==> maps_to(
                        prefix_view(*store)[(self.prefix, win[i])],
                        transform,
                        win[i],
                        #[trigger] data@[i],
                    ),
            decreases limit - count,
        {
            match store.first_suffix_after(self.prefix, cursor)? {
                None => {
                    proof {
                        assert(forall|j: u64|
                            sub.contains(j) ==> !crate::pagespec::past_cursor(cursor, j));
                        crate::pagespec::lemma_page_seq_exhausted(
                            sub,
                            cursor,
                            (limit - count) as nat,
                        );
                        assert(win.skip(count as int) =~= Seq::<u64>::empty());
                        assert(win =~= win.take(count as int));
                        assert(win.len() == count);
                    }
                    let qty = data.len();
                    return Ok(NextPage { data, next: None, qty });
                },
                Some((s, v)) => {
                    let ghost held: String = v;
                    proof {
                        crate::pagespec::lemma_page_seq_step(
                            sub,
                            cursor,
                            (limit - count) as nat,
                            s,
                        );
                        let rest = page_seq(sub, Some(s), ((limit - count) - 1) as nat);
                        assert(win.skip(count as int) == seq![s] + rest);
                        assert(win.skip(count as int)[0] == s);
                        assert(win[count as int] == s);
                        assert(win.len() >= count + 1);
                        assert(win.skip(count as int).skip(1) =~= rest);
                        assert(win.skip(count as int + 1) =~= win.skip(count as int).skip(1));
                    }
                    let ghost pre = data@;
                    let out = transform(s, v);
                    data.push(out);
                    cursor = Some(s);
                    count += 1;
                    proof {
                        assert(held@ == prefix_view(*store)[(self.prefix, win[count - 1])]);
                        assert(call_ensures(
                            transform,
                            (win[count - 1], held),
                            data@[count as int - 1],
                        ));
                        assert(maps_to(
                            prefix_view(*store)[(self.prefix, win[count - 1])],
                            transform,
                            win[count - 1],
                            data@[count as int - 1],
                        ));
                        assert forall|i: int|
                            0 <= i < count implies maps_to(
                            prefix_view(*store)[(self.prefix, win[i])],
                            transform,
                            win[i],
                            #[trigger] data@[i],
                        ) by {
                            if i < count - 1 {
                                assert(maps_to(
                                    prefix_view(*store)[(self.prefix, win[i])],
                                    transform,
                                    win[i],
                                    pre[i],
                                ));
                                assert(data@[i] == pre[i]);
                            }
                        }
                    }
                },
            }
        }
        proof {
            assert(win.skip(count as int) =~= Seq::<u64>::empty());
            assert(win =~= win.take(count as int));
            assert(win.len() == count);
        }
        let next: Option<u64> = if limit > 0 {
            cursor
        } else {
            None
        };
        let qty = data.len();
        Ok(NextPage { data, next, qty })
    }
}

impl<const LIMIT: usize> KeysQuery for PrefixPage<LIMIT, u64, u64> {
    fn keys(self, store: &PrefixStore) -> (r: Result<Vec<u64>, cosmwasm_std::StdError>)
        ensures
            r matches Ok(found) ==> found@ == page_seq(
                sub_keys(prefix_view(*store), self.prefix),
                self.start,
                effective_limit(self.qty, LIMIT) as nat,
            ),
            effective_limit(self.qty, LIMIT) == 0 ==> r is Ok,
    {
        let ghost win = page_seq(
            sub_keys(prefix_view(*store), self.prefix),
            self.start,
            effective_limit(self.qty, LIMIT) as nat,
        );
        let keep = |s: u64, _v: String| -> (kept: u64)
            ensures
                kept == s,
            { s };
        let res = self.into_pagination(store, keep);
        match res {
            Ok(page) => {
                proof {
                    assert forall|i: int| 0 <= i < win.len() implies page.data@[i] == win[i] by {
                        assert(maps_to(
                            prefix_view(*store)[(self.prefix, win[i])],
                            keep,
                            win[i],
                            page.data@[i],
                        ));
                        let v = choose|v: String|
                            v@ == prefix_view(*store)[(self.prefix, win[i])] && call_ensures(
                                keep,
                                (win[i], v),
                                page.data@[i],
                            );
                        assert(call_ensures(keep, (win[i], v), page.data@[i]));
                    }
                    assert(page.data@ =~= win);
                }
                Ok(page.data)
            },
            Err(e) => Err(e),
        }
    }
}

/// Prefix isolation: every suffix a prefix-scoped page emits belongs to a
/// composite key that carries the requested prefix — no entry from outside
/// the sub-keyspace is ever included.
pub proof fn lemma_prefix_isolation(
    m: Map<(u64, u64), Seq<char>>,
    p: u64,
    after: Option<u64>,
    limit: nat,
)
    ensures
        forall|i: int|
            0 <= i < page_seq(sub_keys(m, p), after, limit).len() ==> m.dom().contains(
                (p, #[trigger] page_seq(sub_keys(m, p), after, limit)[i]),
            ),
{
    crate::pagespec::lemma_page_seq_props(sub_keys(m, p), after, limit);
    let win = page_seq(sub_keys(m, p), after, limit);
    assert forall|i: int| 0 <= i < win.len() implies m.dom().contains((p, win[i])) by {
        assert(sub_keys(m, p).contains(win[i]));
    }
}

/// Continuation completeness over one prefix: the walk that requests a page
/// under `p` and repeatedly re-queries with each cursor until a page carries
/// none emits exactly the suffixes stored under `p` past the start — each
/// exactly once, in ascending order, and never an entry of another prefix.
/// `rounds` must merely be generous enough for the walk to have stopped.
pub proof fn lemma_prefix_continuation_completeness(
    m: Map<(u64, u64), Seq<char>>,
    p: u64,
    after: Option<u64>,
    limit: nat,
    rounds: nat,
)
    requires
        m.dom().finite(),
        limit > 0,
        rounds * limit >= keys_past(sub_keys(m, p), after).len() + 1,
    ensures
        chain_seq(sub_keys(m, p), after, limit, rounds).to_set() == keys_past(
            sub_keys(m, p),
            after,
        ),
        forall|i: int, j: int|
            0 <= i < j < chain_seq(sub_keys(m, p), after, limit, rounds).len() ==> chain_seq(
                sub_keys(m, p),
                after,
                limit,
                rounds,
            )[i] < chain_seq(sub_keys(m, p), after, limit, rounds)[j],
        forall|i: int|
            0 <= i < chain_seq(sub_keys(m, p), after, limit, rounds).len() ==> m.dom().contains(
                (p, #[trigger] chain_seq(sub_keys(m, p), after, limit, rounds)[i]),
            ),
{
    crate::pagespec::lemma_sub_keys_finite(m, p);
    crate::pagespec::lemma_continuation_completeness(sub_keys(m, p), after, limit, rounds);
    let chain = chain_seq(sub_keys(m, p), after, limit, rounds);
    assert forall|i: int| 0 <= i < chain.len() implies m.dom().contains((p, chain[i])) by {
        assert(chain.to_set().contains(chain[i]));
        assert(sub_keys(m, p).contains(chain[i]));
    }
}

} // verus!
