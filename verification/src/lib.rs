//! Cursor-based pagination over an ordered key-value keyspace.
//!
//! A page request carries an optional exclusive start cursor and an optional
//! page-size override. Resolving it drives a single bounded ascending scan
//! over the keyspace (or over the sub-keyspace of one key prefix), applies a
//! caller-supplied transform once per emitted entry, and derives a
//! continuation cursor that a follow-up request can resume from.

use vstd::prelude::*;

pub mod pagespec;
pub mod prefix;
pub mod query;
pub mod store;

pub use prefix::{DefaultPrefixPage, PrefixPage};
pub use query::{DefaultPage, Page};
pub use store::{FlatStore, PrefixStore};

use pagespec::{next_cursor, page_seq};

verus! {

/// One page of results: the transformed entries in ascending key order, the
/// continuation cursor when the window was filled to the limit, and the count
/// of entries (always equal to `data.len()`).
pub struct NextPage<D, K> {
    pub data: Vec<D>,
    pub next: Option<K>,
    pub qty: usize,
}

/// `out` is a possible result of applying `transform` to key `k` and the
/// stored text `value`.
pub open spec fn maps_to<D, F: Fn(u64, String) -> D>(
    value: Seq<char>,
    transform: F,
    k: u64,
    out: D,
) -> bool {
    exists|v: String| v@ == value && call_ensures(transform, (k, v), out)
}

/// What a page request scans: its keyspace source, the keys it can see
/// there, the stored text under each, its exclusive start cursor, and the
/// page size it resolves to.
pub trait PageView: Sized {
    /// The keyspace source this request scans.
    type Source;

    /// The keys the request can see in `source`.
    spec fn scope(self, source: &Self::Source) -> Set<u64>;

    /// The stored text under key `k` of the visible keyspace.
    spec fn value_at(self, source: &Self::Source, k: u64) -> Seq<char>;

    /// The exclusive start cursor of the request.
    spec fn start_of(self) -> Option<u64>;

    /// The page size the request resolves to.
    spec fn limit_of(self) -> usize;
}

/// A request that resolves to one page of transformed entries over some
/// keyspace source.
///
/// The contract pins the page: its entries are the transforms of the first
/// `limit_of` visible keys strictly after the cursor, in ascending order,
/// and its continuation cursor is the last emitted key exactly when that
/// window was filled to a positive limit.
pub trait PaginatedQuery<D, F: Fn(u64, String) -> D>: PageView {
    /// Resolves the request in one bounded ascending pass, applying
    /// `transform` once per emitted entry. A source failure aborts the pass
    /// and is propagated; no partial page is returned. A zero limit returns
    /// the empty page without touching the source.
    fn into_pagination(self, source: &Self::Source, transform: F) -> (r: Result<
        NextPage<D, u64>,
        cosmwasm_std::StdError,
    >)
        requires
            forall|k: u64, v: String| #[trigger] call_requires(transform, (k, v)),
        ensures
            r matches Ok(page) ==> ({
                let win = page_seq(self.scope(source), self.start_of(), self.limit_of() as nat);
                &&& page.qty == page.data@.len()
                &&& page.qty <= self.limit_of()
                &&& page.data@.len() == win.len()
                &&& page.next == next_cursor(
                    self.scope(source),
                    self.start_of(),
                    self.limit_of() as nat,
                )
                &&& forall|i: int|
                    0 <= i < win.len() ==> maps_to(
                        self.value_at(source, win[i]),
                        transform,
                        win[i],
                        #[trigger] page.data@[i],
                    )
            }),
            self.limit_of() == 0 ==> r is Ok,
    ;
}

/// A request that resolves to its window of keys alone.
pub trait KeysQuery: PageView {
    /// Resolves the request to the first `limit_of` visible keys strictly
    /// after the cursor, ascending. A source failure is propagated unchanged;
    /// a zero limit succeeds without touching the source.
    fn keys(self, source: &Self::Source) -> (r: Result<Vec<u64>, cosmwasm_std::StdError>)
        ensures
            r matches Ok(found) ==> found@ == page_seq(
                self.scope(source),
                self.start_of(),
                self.limit_of() as nat,
            ),
            self.limit_of() == 0 ==> r is Ok,
    ;
}

} // verus!
