use vstd::prelude::*;
use crate::red_black::{
    ascending, descending, down_from_start, from_start, is_greatest, is_least, is_predecessor,
    is_successor,
};

verus! {

/// What `next` returns, `prev` undoes: if `c` follows `k` among the keys
/// `s`, then `k` is the one and only key that precedes `c`.
pub proof fn lemma_next_then_prev(s: Set<u64>, k: u64, c: u64)
    requires
        s.contains(k),
        is_successor(s, k, c),
    ensures
        is_predecessor(s, c, k),
        forall|f: u64| is_predecessor(s, c, f) ==> f == k,
{
}

/// What `prev` returns, `next` undoes: if `f` precedes `k` among the keys
/// `s`, then `k` is the one and only key that follows `f`.
pub proof fn lemma_prev_then_next(s: Set<u64>, k: u64, f: u64)
    requires
        s.contains(k),
        is_predecessor(s, k, f),
    ensures
        is_successor(s, f, k),
        forall|c: u64| is_successor(s, f, c) ==> c == k,
{
}

/// Stepping with `next` from `first` walks the ascending traversal `r` of
/// the keys `s`: its first item is the least key, each item is followed by
/// the next one, and nothing follows the last.
pub proof fn lemma_next_walks_traversal(s: Set<u64>, r: Seq<u64>)
    requires
        ascending(r),
        forall|x: u64| #[trigger] r.contains(x) <==> s.contains(x),
    ensures
        s.is_empty() <==> r.len() == 0,
        r.len() > 0 ==> is_least(s, r[0]),
        r.len() > 0 ==> is_greatest(s, r[r.len() - 1]),
        forall|i: int| 0 <= i < r.len() - 1 ==> is_successor(s, #[trigger] r[i], r[i + 1]),
        r.len() > 0 ==> forall|x: u64| #[trigger] s.contains(x) ==> x <= r[r.len() - 1],
{
    if r.len() > 0 {
        assert(r.contains(r[0]));
        assert forall|x: u64| #[trigger] s.contains(x) implies r[0] <= x && x <= r[r.len() - 1] by {
            assert(r.contains(x));
            let j = choose|j: int| 0 <= j < r.len() && r[j] == x;
        }
        assert(r.contains(r[r.len() - 1]));
    } else {
        assert forall|x: u64| !s.contains(x) by {
            if s.contains(x) {
                assert(r.contains(x));
            }
        }
        assert(s =~= Set::<u64>::empty());
    }
    assert forall|i: int| 0 <= i < r.len() - 1 implies is_successor(s, #[trigger] r[i], r[i + 1]) by {
        assert(r.contains(r[i + 1]));
        assert forall|x: u64| #[trigger] s.contains(x) && r[i] < x implies r[i + 1] <= x by {
            assert(r.contains(x));
            let j = choose|j: int| 0 <= j < r.len() && r[j] == x;
        }
    }
}

/// An ascending walk started at a key that is held begins with that key.
pub proof fn lemma_iter_starts_at(s: Set<u64>, r: Seq<u64>, k: u64)
    requires
        s.contains(k),
        ascending(r),
        forall|x: u64| #[trigger] r.contains(x) <==> (s.contains(x) && from_start(Some(k), x)),
    ensures
        r.len() > 0,
        r[0] == k,
{
    assert(r.contains(k));
    let j = choose|j: int| 0 <= j < r.len() && r[j] == k;
    assert(r.contains(r[0]));
}

/// A descending walk started at a key that is held begins with that key.
pub proof fn lemma_reverse_iter_starts_at(s: Set<u64>, r: Seq<u64>, k: u64)
    requires
        s.contains(k),
        descending(r),
        forall|x: u64| #[trigger] r.contains(x) <==> (s.contains(x) && down_from_start(Some(k), x)),
    ensures
        r.len() > 0,
        r[0] == k,
{
    assert(r.contains(k));
    let j = choose|j: int| 0 <= j < r.len() && r[j] == k;
    assert(r.contains(r[0]));
}

/// Inserting a key that is not held and then removing it gives back the
/// keys held before.
pub proof fn lemma_insert_then_remove(s: Set<u64>, k: u64)
    requires
        !s.contains(k),
    ensures
        s.insert(k).remove(k) == s,
{
    assert(s.insert(k).remove(k) =~= s);
}

} // verus!
