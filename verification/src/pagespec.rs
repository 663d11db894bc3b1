//! The mathematical model of one page: which keys a bounded ascending scan
//! emits, and which continuation cursor it derives.

use vstd::prelude::*;

verus! {

/// Does `k` lie strictly after the optional exclusive cursor `after`?
pub open spec fn past_cursor(after: Option<u64>, k: u64) -> bool {
    match after {
        None => true,
        Some(a) => a < k,
    }
}

/// The keys of `ks` that lie strictly after the cursor: what remains visible
/// to a scan resuming from `after`.
pub open spec fn keys_past(ks: Set<u64>, after: Option<u64>) -> Set<u64> {
    ks.filter(|k: u64| past_cursor(after, k))
}

/// `k` is the smallest key of `ks` strictly after the cursor.
pub open spec fn is_first_past(ks: Set<u64>, after: Option<u64>, k: u64) -> bool {
    &&& ks.contains(k)
    &&& past_cursor(after, k)
    &&& forall|j: u64| ks.contains(j) && past_cursor(after, j) ==> k <= j
}

/// The window of one page: the ascending sequence of at most `limit` keys of
/// `ks` that lie strictly after `after`, starting with the smallest.
pub open spec fn page_seq(ks: Set<u64>, after: Option<u64>, limit: nat) -> Seq<u64>
    decreases limit,
{
    if limit == 0 {
        Seq::empty()
    } else if exists|k: u64| is_first_past(ks, after, k) {
        let k = choose|k: u64| is_first_past(ks, after, k);
        seq![k] + page_seq(ks, Some(k), (limit - 1) as nat)
    } else {
        Seq::empty()
    }
}

/// The sub-keyspace one prefix scopes a scan to: the suffixes whose composite
/// key under prefix `p` lies in the keyspace `m`.
pub open spec fn sub_keys(m: Map<(u64, u64), Seq<char>>, p: u64) -> Set<u64> {
    Set::new(|s: u64| m.dom().contains((p, s)))
}

/// The page size a request resolves to: the override if one was supplied,
/// else the configured default, with no upper ceiling.
pub open spec fn effective_limit(qty: Option<usize>, default: usize) -> usize {
    match qty {
        Some(q) => q,
        None => default,
    }
}

/// The continuation cursor of one page: the last emitted key when the window
/// was filled to a positive limit, nothing when the scan ran out first.
pub open spec fn next_cursor(ks: Set<u64>, after: Option<u64>, limit: nat) -> Option<u64> {
    let win = page_seq(ks, after, limit);
    if win.len() == limit && limit > 0 {
        Some(win.last())
    } else {
        None
    }
}

/// The smallest key past the cursor is unique.
pub proof fn lemma_first_past_unique(ks: Set<u64>, after: Option<u64>, k1: u64, k2: u64)
    requires
        is_first_past(ks, after, k1),
        is_first_past(ks, after, k2),
    ensures
        k1 == k2,
{
}

/// Unfolds one step of the window: when `k` is the smallest key past the
/// cursor, the page starts with `k` and continues strictly after it.
pub proof fn lemma_page_seq_step(ks: Set<u64>, after: Option<u64>, limit: nat, k: u64)
    requires
        limit > 0,
        is_first_past(ks, after, k),
    ensures
        page_seq(ks, after, limit) == seq![k] + page_seq(ks, Some(k), (limit - 1) as nat),
{
    let kc = choose|k: u64| is_first_past(ks, after, k);
    lemma_first_past_unique(ks, after, kc, k);
}

/// When no key lies past the cursor, the window is empty.
pub proof fn lemma_page_seq_exhausted(ks: Set<u64>, after: Option<u64>, limit: nat)
    requires
        forall|j: u64| ks.contains(j) ==> !past_cursor(after, j),
    ensures
        page_seq(ks, after, limit) == Seq::<u64>::empty(),
{
    if limit > 0 {
        assert(forall|k: u64| !is_first_past(ks, after, k));
    }
}

/// Shape of every window: it never exceeds the limit, every emitted key lies
/// in the keyspace strictly after the cursor, and the keys are strictly
/// ascending (so no key is ever emitted twice).
pub proof fn lemma_page_seq_props(ks: Set<u64>, after: Option<u64>, limit: nat)
    ensures
        page_seq(ks, after, limit).len() <= limit,
        forall|i: int|
            0 <= i < page_seq(ks, after, limit).len() ==> ks.contains(
                #[trigger] page_seq(ks, after, limit)[i],
            ) && past_cursor(after, page_seq(ks, after, limit)[i]),
        forall|i: int, j: int|
            0 <= i < j < page_seq(ks, after, limit).len() ==> page_seq(ks, after, limit)[i]
                < page_seq(ks, after, limit)[j],
    decreases limit,
{
    let win = page_seq(ks, after, limit);
    if limit == 0 {
    } else if exists|k: u64| is_first_past(ks, after, k) {
        let k = choose|k: u64| is_first_past(ks, after, k);
        let tail = page_seq(ks, Some(k), (limit - 1) as nat);
        lemma_page_seq_props(ks, Some(k), (limit - 1) as nat);
        assert(win == seq![k] + tail);
        assert forall|i: int| 0 <= i < win.len() implies ks.contains(#[trigger] win[i])
            && past_cursor(after, win[i]) by {
            if i > 0 {
                assert(tail[i - 1] == win[i]);
                assert(past_cursor(Some(k), win[i]));
            }
        }
        assert forall|i: int, j: int| 0 <= i < j < win.len() implies win[i] < win[j] by {
            if i == 0 {
                assert(past_cursor(Some(k), tail[j - 1]));
            } else {
                assert(tail[i - 1] < tail[j - 1]);
            }
        }
    } else {
    }
}

/// Exclusivity: a page requested with the cursor `Some(c)` never contains the
/// key `c` itself, so resuming from a page's cursor never repeats its last
/// entry.
pub proof fn lemma_exclusivity(ks: Set<u64>, c: u64, limit: nat)
    ensures
        !page_seq(ks, Some(c), limit).contains(c),
{
    lemma_page_seq_props(ks, Some(c), limit);
    let win = page_seq(ks, Some(c), limit);
    assert forall|i: int| 0 <= i < win.len() implies win[i] != c by {
        assert(past_cursor(Some(c), win[i]));
    }
}

/// A finite keyspace with a key past the cursor has a smallest such key.
pub proof fn lemma_finite_first(ks: Set<u64>, after: Option<u64>)
    requires
        ks.finite(),
        exists|k: u64| ks.contains(k) && past_cursor(after, k),
    ensures
        exists|k: u64| is_first_past(ks, after, k),
{
    let past = keys_past(ks, after);
    let wit = choose|k: u64| ks.contains(k) && past_cursor(after, k);
    assert(past.contains(wit));
    ks.lemma_len_filter(|k: u64| past_cursor(after, k));
    if past.len() == 0 {
        past.lemma_len0_is_empty();
        assert(false);
    }
    let leq = |a: u64, b: u64| a <= b;
    assert(vstd::relations::total_ordering(leq));
    past.find_unique_minimal_ensures(leq);
    let m = past.find_unique_minimal(leq);
    assert(vstd::relations::is_minimal(leq, m, past));
    assert forall|j: u64| ks.contains(j) && past_cursor(after, j) implies m <= j by {
        assert(past.contains(j));
        if leq(j, m) {
            assert(leq(m, j));
        }
    }
    assert(is_first_past(ks, after, m));
}

/// Continuation: when a page fills its window of `l1` keys, the window of
/// `l1 + l2` keys is exactly that page followed by the page of `l2` keys
/// requested from its last key — resuming from the cursor loses nothing and
/// repeats nothing.
pub proof fn lemma_continuation(ks: Set<u64>, after: Option<u64>, l1: nat, l2: nat)
    requires
        page_seq(ks, after, l1).len() == l1,
    ensures
        page_seq(ks, after, l1 + l2) == page_seq(ks, after, l1) + page_seq(
            ks,
            if l1 == 0 {
                after
            } else {
                Some(page_seq(ks, after, l1).last())
            },
            l2,
        ),
    decreases l1,
{
    let win = page_seq(ks, after, l1);
    if l1 == 0 {
        assert(page_seq(ks, after, l1 + l2) =~= win + page_seq(ks, after, l2));
    } else {
        assert(exists|k: u64| is_first_past(ks, after, k));
        let k = choose|k: u64| is_first_past(ks, after, k);
        let tail = page_seq(ks, Some(k), (l1 - 1) as nat);
        assert(win == seq![k] + tail);
        assert(tail.len() == l1 - 1);
        lemma_continuation(ks, Some(k), (l1 - 1) as nat, l2);
        lemma_page_seq_step(ks, after, l1 + l2, k);
        let resume = if l1 == 1 {
            Some(k)
        } else {
            Some(tail.last())
        };
        assert(page_seq(ks, Some(k), (l1 - 1 + l2) as nat) == tail + page_seq(ks, resume, l2));
        assert(win.last() == if l1 == 1 {
            k
        } else {
            tail.last()
        });
        assert(page_seq(ks, after, l1 + l2) =~= win + page_seq(ks, Some(win.last()), l2));
    }
}

/// Completeness: a window at least as large as what remains past the cursor
/// emits exactly the remaining keys, so repeated continuation covers the
/// whole finite keyspace.
pub proof fn lemma_page_seq_complete(ks: Set<u64>, after: Option<u64>, limit: nat)
    requires
        ks.finite(),
        keys_past(ks, after).len() <= limit,
    ensures
        page_seq(ks, after, limit).to_set() == keys_past(ks, after),
    decreases limit,
{
    let past = keys_past(ks, after);
    ks.lemma_len_filter(|k: u64| past_cursor(after, k));
    let win = page_seq(ks, after, limit);
    if exists|k: u64| ks.contains(k) && past_cursor(after, k) {
        lemma_finite_first(ks, after);
        let k = choose|k: u64| is_first_past(ks, after, k);
        assert(past.len() > 0) by {
            assert(past.contains(k));
            if past.len() == 0 {
                past.lemma_len0_is_empty();
            }
        }
        lemma_page_seq_step(ks, after, limit, k);
        let tail = page_seq(ks, Some(k), (limit - 1) as nat);
        lemma_first_past_remove(ks, after, k);
        lemma_page_seq_complete(ks, Some(k), (limit - 1) as nat);
        assert(win.to_set() =~= tail.to_set().insert(k)) by {
            assert forall|j: u64| win.to_set().contains(j) implies tail.to_set().insert(
                k,
            ).contains(j) by {
                let i = choose|i: int| 0 <= i < win.len() && win[i] == j;
                if i > 0 {
                    assert(tail[i - 1] == j);
                }
            }
            assert forall|j: u64| tail.to_set().insert(k).contains(j) implies win.to_set().contains(
                j,
            ) by {
                if j == k {
                    assert(win[0] == k);
                } else {
                    let i = choose|i: int| 0 <= i < tail.len() && tail[i] == j;
                    assert(win[i + 1] == j);
                }
            }
        }
        assert(win.to_set() =~= past);
    } else {
        lemma_page_seq_exhausted(ks, after, limit);
        assert(win.to_set() =~= past) by {
            assert forall|j: u64| past.contains(j) implies win.to_set().contains(j) by {
                assert(ks.contains(j) && past_cursor(after, j));
            }
        }
    }
}

/// Empty-input idempotence: when nothing lies past the cursor — in particular
/// over an empty keyspace — the page is empty and carries no cursor.
pub proof fn lemma_empty_keyspace(ks: Set<u64>, after: Option<u64>, limit: nat)
    requires
        forall|j: u64| ks.contains(j) ==> !past_cursor(after, j),
    ensures
        page_seq(ks, after, limit) == Seq::<u64>::empty(),
        next_cursor(ks, after, limit) == None::<u64>,
{
    lemma_page_seq_exhausted(ks, after, limit);
}

/// Stepping the cursor to the smallest remaining key removes exactly that key
/// from what a resumed scan can see.
pub proof fn lemma_first_past_remove(ks: Set<u64>, after: Option<u64>, k: u64)
    requires
        is_first_past(ks, after, k),
    ensures
        keys_past(ks, Some(k)) =~= keys_past(ks, after).remove(k),
{
    assert forall|j: u64| keys_past(ks, Some(k)).contains(j) implies keys_past(ks, after).remove(
        k,
    ).contains(j) by {
        assert(past_cursor(after, j));
    }
    assert forall|j: u64| keys_past(ks, after).remove(k).contains(j) implies keys_past(
        ks,
        Some(k),
    ).contains(j) by {
        assert(k <= j);
    }
}

/// A window that the keyspace could not fill holds everything: fewer emitted
/// keys than the limit means the scan ran out, so the page carries the whole
/// remainder of a finite keyspace.
pub proof fn lemma_page_seq_partial(ks: Set<u64>, after: Option<u64>, limit: nat)
    requires
        ks.finite(),
        page_seq(ks, after, limit).len() < limit,
    ensures
        page_seq(ks, after, limit).to_set() == keys_past(ks, after),
    decreases limit,
{
    let past = keys_past(ks, after);
    let win = page_seq(ks, after, limit);
    if exists|k: u64| ks.contains(k) && past_cursor(after, k) {
        lemma_finite_first(ks, after);
        let k = choose|k: u64| is_first_past(ks, after, k);
        lemma_page_seq_step(ks, after, limit, k);
        let tail = page_seq(ks, Some(k), (limit - 1) as nat);
        assert(tail.len() < limit - 1);
        lemma_first_past_remove(ks, after, k);
        lemma_page_seq_partial(ks, Some(k), (limit - 1) as nat);
        assert(win.to_set() =~= tail.to_set().insert(k)) by {
            assert forall|j: u64| win.to_set().contains(j) implies tail.to_set().insert(
                k,
            ).contains(j) by {
                let i = choose|i: int| 0 <= i < win.len() && win[i] == j;
                if i > 0 {
                    assert(tail[i - 1] == j);
                }
            }
            assert forall|j: u64| tail.to_set().insert(k).contains(j) implies win.to_set().contains(
                j,
            ) by {
                if j == k {
                    assert(win[0] == k);
                } else {
                    let i = choose|i: int| 0 <= i < tail.len() && tail[i] == j;
                    assert(win[i + 1] == j);
                }
            }
        }
        assert(win.to_set() =~= past);
    } else {
        lemma_page_seq_exhausted(ks, after, limit);
        assert(win.to_set() =~= past) by {
            assert forall|j: u64| past.contains(j) implies win.to_set().contains(j) by {
                assert(ks.contains(j) && past_cursor(after, j));
            }
        }
    }
}

/// The window is an initial segment of the remaining keyspace: a key past the
/// cursor can be missing from a non-empty window only by exceeding its last
/// entry.
pub proof fn lemma_page_seq_initial(ks: Set<u64>, after: Option<u64>, limit: nat, j: u64)
    requires
        page_seq(ks, after, limit).len() > 0,
        ks.contains(j),
        past_cursor(after, j),
        j <= page_seq(ks, after, limit).last(),
    ensures
        page_seq(ks, after, limit).contains(j),
    decreases limit,
{
    let win = page_seq(ks, after, limit);
    assert(limit > 0);
    assert(exists|k: u64| is_first_past(ks, after, k)) by {
        if !(exists|k: u64| is_first_past(ks, after, k)) {
            assert(win == Seq::<u64>::empty());
        }
    }
    let k = choose|k: u64| is_first_past(ks, after, k);
    lemma_page_seq_step(ks, after, limit, k);
    let tail = page_seq(ks, Some(k), (limit - 1) as nat);
    assert(win == seq![k] + tail);
    if j == k {
        assert(win[0] == k);
    } else {
        assert(k < j);
        assert(past_cursor(Some(k), j));
        if tail.len() == 0 {
            assert(win.last() == k);
            assert(false);
        } else {
            assert(win.last() == tail.last());
            lemma_page_seq_initial(ks, Some(k), (limit - 1) as nat, j);
            let i = choose|i: int| 0 <= i < tail.len() && tail[i] == j;
            assert(win[i + 1] == j);
        }
    }
}

/// What a filled window leaves behind: resuming from its cursor sees exactly
/// the keys past the start less those already emitted.
pub proof fn lemma_filled_window_remainder(ks: Set<u64>, after: Option<u64>, limit: nat)
    requires
        limit > 0,
        page_seq(ks, after, limit).len() == limit,
    ensures
        keys_past(ks, Some(page_seq(ks, after, limit).last())) =~= keys_past(
            ks,
            after,
        ).difference(page_seq(ks, after, limit).to_set()),
{
    let win = page_seq(ks, after, limit);
    let c = win.last();
    lemma_page_seq_props(ks, after, limit);
    assert(past_cursor(after, win[win.len() - 1]));
    assert forall|i: int| 0 <= i < win.len() implies win[i] <= c by {
        if i < win.len() - 1 {
            assert(win[i] < win[win.len() - 1]);
        }
    }
    assert forall|j: u64| keys_past(ks, Some(c)).contains(j) implies keys_past(
        ks,
        after,
    ).difference(win.to_set()).contains(j) by {
        assert(ks.contains(j) && c < j);
        assert(past_cursor(after, j));
        if win.to_set().contains(j) {
            let i = choose|i: int| 0 <= i < win.len() && win[i] == j;
            assert(win[i] <= c);
            assert(false);
        }
    }
    assert forall|j: u64| keys_past(ks, after).difference(win.to_set()).contains(j) implies
        keys_past(ks, Some(c)).contains(j) by {
        if j <= c {
            lemma_page_seq_initial(ks, after, limit, j);
            assert(false);
        }
    }
}

/// The keys a repeated-page walk emits: each round resolves one window of
/// `limit` keys and, while the page carries a continuation cursor, the next
/// round resumes from it; the walk stops with the first page that carries
/// none, or after `rounds` rounds.
pub open spec fn chain_seq(ks: Set<u64>, after: Option<u64>, limit: nat, rounds: nat) -> Seq<u64>
    decreases rounds,
{
    if rounds == 0 {
        Seq::empty()
    } else {
        let win = page_seq(ks, after, limit);
        match next_cursor(ks, after, limit) {
            Some(c) => win + chain_seq(ks, Some(c), limit, (rounds - 1) as nat),
            None => win,
        }
    }
}

/// Continuation completeness: the walk that requests a page and then
/// repeatedly re-queries with the previous page's cursor, stopping at the
/// first page that carries none, emits every key of a finite keyspace past
/// the start exactly once, in ascending order — no gaps, no repeats.
/// `rounds` must merely be generous enough for the walk to have stopped: one
/// round per `limit` keys and one for the final page.
pub proof fn lemma_continuation_completeness(
    ks: Set<u64>,
    after: Option<u64>,
    limit: nat,
    rounds: nat,
)
    requires
        ks.finite(),
        limit > 0,
        rounds * limit >= keys_past(ks, after).len() + 1,
    ensures
        chain_seq(ks, after, limit, rounds).to_set() == keys_past(ks, after),
        forall|i: int, j: int|
            0 <= i < j < chain_seq(ks, after, limit, rounds).len() ==> chain_seq(
                ks,
                after,
                limit,
                rounds,
            )[i] < chain_seq(ks, after, limit, rounds)[j],
    decreases rounds,
{
    let past = keys_past(ks, after);
    ks.lemma_len_filter(|k: u64| past_cursor(after, k));
    if rounds == 0 {
        assert(rounds * limit == 0) by (nonlinear_arith)
            requires
                rounds == 0,
        ;
        assert(false);
    }
    let chain = chain_seq(ks, after, limit, rounds);
    let win = page_seq(ks, after, limit);
    lemma_page_seq_props(ks, after, limit);
    match next_cursor(ks, after, limit) {
        None => {
            assert(win.len() < limit);
            lemma_page_seq_partial(ks, after, limit);
            assert(chain == win);
        },
        Some(c) => {
            assert(win.len() == limit && c == win.last());
            lemma_filled_window_remainder(ks, after, limit);
            let sub = keys_past(ks, Some(c));
            let winset = win.to_set();
            assert(win.no_duplicates()) by {
                assert forall|i: int, j: int| 0 <= i < j < win.len() implies win[i] != win[j] by {
                    assert(win[i] < win[j]);
                }
            }
            win.unique_seq_to_set();
            vstd::seq_lib::seq_to_set_is_finite(win);
            assert forall|x: u64| winset.contains(x) implies past.contains(x) by {
                let i = choose|i: int| 0 <= i < win.len() && win[i] == x;
                assert(ks.contains(win[i]) && past_cursor(after, win[i]));
            }
            ks.lemma_len_filter(|k: u64| past_cursor(Some(c), k));
            assert(sub.disjoint(winset));
            assert(sub + winset =~= past);
            vstd::set_lib::lemma_set_disjoint_lens(sub, winset);
            assert(sub.len() + limit == past.len());
            assert((rounds - 1) * limit >= sub.len() + 1) by (nonlinear_arith)
                requires
                    rounds >= 1,
                    rounds * limit >= past.len() + 1,
                    sub.len() + limit == past.len(),
            ;
            lemma_continuation_completeness(ks, Some(c), limit, (rounds - 1) as nat);
            let rest = chain_seq(ks, Some(c), limit, (rounds - 1) as nat);
            assert(chain == win + rest);
            assert forall|x: u64| chain.to_set().contains(x) implies past.contains(x) by {
                let i = choose|i: int| 0 <= i < chain.len() && chain[i] == x;
                if i < win.len() {
                    assert(win[i] == x);
                    assert(ks.contains(win[i]) && past_cursor(after, win[i]));
                } else {
                    assert(rest[i - win.len()] == x);
                    assert(rest.to_set().contains(x));
                    assert(sub.contains(x));
                }
            }
            assert forall|x: u64| past.contains(x) implies chain.to_set().contains(x) by {
                if winset.contains(x) {
                    let i = choose|i: int| 0 <= i < win.len() && win[i] == x;
                    assert(chain[i] == x);
                } else {
                    assert(sub.contains(x));
                    assert(rest.to_set().contains(x));
                    let i = choose|i: int| 0 <= i < rest.len() && rest[i] == x;
                    assert(chain[win.len() + i] == x);
                }
            }
            assert(chain.to_set() =~= past);
            assert forall|i: int, j: int| 0 <= i < j < chain.len() implies chain[i] < chain[j] by {
                let wl = win.len() as int;
                if j < wl {
                    assert(win[i] < win[j]);
                } else if i >= wl {
                    assert(rest[i - wl] < rest[j - wl]);
                } else {
                    assert(win[i] <= c) by {
                        if i < wl - 1 {
                            assert(win[i] < win[wl - 1]);
                        }
                    }
                    assert(rest.to_set().contains(rest[j - wl]));
                    assert(sub.contains(rest[j - wl]));
                    assert(past_cursor(Some(c), rest[j - wl]));
                }
            }
        },
    }
}

/// A finite keyspace has a finite sub-keyspace under any one prefix.
pub proof fn lemma_sub_keys_finite(m: Map<(u64, u64), Seq<char>>, p: u64)
    requires
        m.dom().finite(),
    ensures
        sub_keys(m, p).finite(),
{
    let pairs = m.dom().filter(|x: (u64, u64)| x.0 == p);
    m.dom().lemma_len_filter(|x: (u64, u64)| x.0 == p);
    let suffix_of = |x: (u64, u64)| x.1;
    pairs.lemma_map_finite(suffix_of);
    assert(sub_keys(m, p) =~= pairs.map(suffix_of)) by {
        assert forall|s: u64| sub_keys(m, p).contains(s) implies pairs.map(suffix_of).contains(
            s,
        ) by {
            assert(pairs.contains((p, s)));
            assert(s == suffix_of((p, s)));
        }
        assert forall|s: u64| pairs.map(suffix_of).contains(s) implies sub_keys(m, p).contains(
            s,
        ) by {
            let x = choose|x: (u64, u64)| pairs.contains(x) && s == suffix_of(x);
            assert(m.dom().contains(x));
            assert(x == (p, s));
        }
    }
}

} // verus!
