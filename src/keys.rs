//! The key-level model of a join: each stream is seen as the sequence of its
//! remaining keys, and a join over N streams as a sequence of N such
//! sequences.
use vstd::prelude::*;
use vstd::seq_lib::seq_to_set_is_finite;

verus! {

/// The keys of `s` strictly increase.
pub open spec fn increasing(s: Seq<u64>) -> bool {
    forall|i: int, j: int| 0 <= i < j < s.len() ==> s[i] < s[j]
}

/// Every stream is in strictly increasing key order.
pub open spec fn all_increasing(ks: Seq<Seq<u64>>) -> bool {
    forall|i: int| 0 <= i < ks.len() ==> increasing(#[trigger] ks[i])
}

/// Key `k` is held by every stream.
pub open spec fn in_all(ks: Seq<Seq<u64>>, k: u64) -> bool {
    forall|i: int| 0 <= i < ks.len() ==> (#[trigger] ks[i]).contains(k)
}

/// Key `k` is held by some stream.
pub open spec fn in_any(ks: Seq<Seq<u64>>, k: u64) -> bool {
    exists|i: int| 0 <= i < ks.len() && (#[trigger] ks[i]).contains(k)
}

/// `k` is the smallest key that every stream holds.
pub open spec fn least_common(ks: Seq<Seq<u64>>, k: u64) -> bool {
    &&& in_all(ks, k)
    &&& forall|x: u64| x < k ==> !in_all(ks, x)
}

/// `k` is the smallest key that some stream holds.
pub open spec fn least_held(ks: Seq<Seq<u64>>, k: u64) -> bool {
    &&& in_any(ks, k)
    &&& forall|x: u64| x < k ==> !in_any(ks, x)
}

/// The keys that every stream holds (for at least one stream).
pub open spec fn common_keys(ks: Seq<Seq<u64>>) -> Set<u64> {
    ks[0].to_set().filter(|k: u64| in_all(ks, k))
}

/// The keys that some stream holds.
pub open spec fn held_keys(ks: Seq<Seq<u64>>) -> Set<u64>
    decreases ks.len(),
{
    if ks.len() == 0 {
        Set::empty()
    } else {
        held_keys(ks.drop_last()).union(ks.last().to_set())
    }
}

/// No stream is exhausted, and `k` is at most the last key of each.
pub open spec fn within_all_ends(ks: Seq<Seq<u64>>, k: u64) -> bool {
    forall|i: int| 0 <= i < ks.len() ==> (#[trigger] ks[i]).len() > 0 && k <= ks[i].last()
}

/// The keys for which a union join that stops at the first exhausted stream
/// yields a row: those held by some stream and not past the end of any.
pub open spec fn reach_keys(ks: Seq<Seq<u64>>) -> Set<u64> {
    held_keys(ks).filter(|k: u64| within_all_ends(ks, k))
}

/// `held_keys` holds exactly the keys of `in_any`, and is finite.
pub proof fn lemma_held_keys(ks: Seq<Seq<u64>>)
    ensures
        held_keys(ks).finite(),
        forall|k: u64| held_keys(ks).contains(k) <==> in_any(ks, k),
    decreases ks.len(),
{
    if ks.len() > 0 {
        let init = ks.drop_last();
        lemma_held_keys(init);
        seq_to_set_is_finite(ks.last());
        assert(held_keys(ks) == held_keys(init).union(ks.last().to_set()));
        assert forall|k: u64| held_keys(ks).contains(k) <==> in_any(ks, k) by {
            assert(held_keys(init).contains(k) <==> in_any(init, k));
            if in_any(ks, k) {
                let i = choose|i: int| 0 <= i < ks.len() && (#[trigger] ks[i]).contains(k);
                if i < ks.len() - 1 {
                    assert(init[i] == ks[i]);
                    assert(in_any(init, k));
                }
            }
            if in_any(init, k) {
                let i = choose|i: int| 0 <= i < init.len() && (#[trigger] init[i]).contains(k);
                assert(init[i] == ks[i]);
            }
            if ks.last().contains(k) {
                assert(ks[ks.len() - 1].contains(k));
            }
        }
    }
}

/// The common keys form a finite set.
pub proof fn lemma_common_keys_finite(ks: Seq<Seq<u64>>)
    requires
        ks.len() > 0,
    ensures
        common_keys(ks).finite(),
        forall|k: u64| common_keys(ks).contains(k) <==> in_all(ks, k),
{
    seq_to_set_is_finite(ks[0]);
}

/// The reachable keys form a finite set.
pub proof fn lemma_reach_keys_finite(ks: Seq<Seq<u64>>)
    ensures
        reach_keys(ks).finite(),
        forall|k: u64| reach_keys(ks).contains(k) <==> in_any(ks, k) && within_all_ends(ks, k),
{
    lemma_held_keys(ks);
}

/// Taking the least common key `k` out of every stream, together with every
/// key below it, removes exactly `k` from the common keys and leaves only
/// keys above `k`.
pub proof fn lemma_intersection_step(ks: Seq<Seq<u64>>, next: Seq<Seq<u64>>, k: u64)
    requires
        ks.len() > 0,
        next.len() == ks.len(),
        least_common(ks, k),
        forall|i: int, x: u64|
            0 <= i < ks.len() ==> (#[trigger] next[i].contains(x) <==> ks[i].contains(x) && x > k),
    ensures
        common_keys(ks).contains(k),
        common_keys(next) == common_keys(ks).remove(k),
        forall|x: u64| common_keys(next).contains(x) ==> x > k,
{
    lemma_common_keys_finite(ks);
    lemma_common_keys_finite(next);
    assert forall|x: u64| common_keys(next).contains(x) <==> common_keys(ks).remove(k).contains(x) by {
        if in_all(next, x) {
            assert(next[0].contains(x));
            assert forall|i: int| 0 <= i < ks.len() implies (#[trigger] ks[i]).contains(x) by {
                assert(next[i].contains(x));
            }
        }
        if in_all(ks, x) && x != k {
            assert(x > k) by {
                if x < k {
                    assert(!in_all(ks, x));
                }
            }
            assert forall|i: int| 0 <= i < next.len() implies (#[trigger] next[i]).contains(x) by {
                assert(ks[i].contains(x));
            }
        }
    }
    assert(common_keys(next) =~= common_keys(ks).remove(k));
    assert forall|x: u64| common_keys(next).contains(x) implies x > k by {
        assert(next[0].contains(x));
    }
}

/// One union step: with no stream exhausted, take the least held key `k` off
/// the head of each stream that starts with it. This removes exactly `k`
/// from the reachable keys and leaves only keys above `k`.
pub proof fn lemma_union_step(ks: Seq<Seq<u64>>, next: Seq<Seq<u64>>, k: u64)
    requires
        all_increasing(ks),
        next.len() == ks.len(),
        least_held(ks, k),
        forall|i: int| 0 <= i < ks.len() ==> (#[trigger] ks[i]).len() > 0,
        forall|i: int|
            0 <= i < ks.len() ==> #[trigger] next[i] == (if ks[i][0] == k {
                ks[i].drop_first()
            } else {
                ks[i]
            }),
    ensures
        reach_keys(ks).contains(k),
        reach_keys(next) == reach_keys(ks).remove(k),
        forall|x: u64| reach_keys(next).contains(x) ==> x > k,
{
    lemma_reach_keys_finite(ks);
    lemma_reach_keys_finite(next);
    assert forall|i: int, x: u64| 0 <= i < ks.len() && #[trigger] ks[i].contains(x) implies x >= k by {
        if x < k {
            assert(in_any(ks, x));
        }
    }
    assert forall|i: int, x: u64| 0 <= i < ks.len() implies (#[trigger] next[i].contains(x) <==> ks[i].contains(x)
        && x != k) by {
        assert(ks[i].contains(ks[i][0]));
        if ks[i][0] == k {
            if next[i].contains(x) {
                let j = choose|j: int| 0 <= j < next[i].len() && next[i][j] == x;
                assert(ks[i][j + 1] == x);
            }
            if ks[i].contains(x) && x != k {
                let j = choose|j: int| 0 <= j < ks[i].len() && ks[i][j] == x;
                assert(next[i][j - 1] == x);
            }
        } else {
            if ks[i].contains(k) {
                let j = choose|j: int| 0 <= j < ks[i].len() && ks[i][j] == k;
                assert(ks[i][0] >= k);
                if j > 0 {
                    assert(ks[i][0] < ks[i][j]);
                }
            }
        }
    }
    assert forall|i: int| 0 <= i < ks.len() && (#[trigger] next[i]).len() > 0 implies next[i].last()
        == ks[i].last() by {}
    assert forall|i: int| 0 <= i < ks.len() implies k <= (#[trigger] ks[i]).last() by {
        assert(ks[i].contains(ks[i].last()));
    }
    assert(in_any(ks, k));
    assert(within_all_ends(ks, k));
    assert forall|x: u64| reach_keys(next).contains(x) <==> reach_keys(ks).remove(k).contains(x) by {
        if in_any(next, x) {
            let i = choose|i: int| 0 <= i < next.len() && (#[trigger] next[i]).contains(x);
            assert(ks[i].contains(x));
        }
        if in_any(ks, x) && x != k {
            let i = choose|i: int| 0 <= i < ks.len() && (#[trigger] ks[i]).contains(x);
            assert(next[i].contains(x));
        }
        if within_all_ends(next, x) {
            assert forall|i: int| 0 <= i < ks.len() implies (#[trigger] ks[i]).len() > 0 && x
                <= ks[i].last() by {
                assert(next[i].len() > 0);
            }
        }
        if within_all_ends(ks, x) && in_any(ks, x) && x != k {
            assert forall|i: int| 0 <= i < next.len() implies (#[trigger] next[i]).len() > 0 && x
                <= next[i].last() by {
                let i0 = choose|i: int| 0 <= i < ks.len() && (#[trigger] ks[i]).contains(x);
                assert(x >= k);
                if next[i].len() == 0 {
                    assert(ks[i].len() == 1);
                    assert(ks[i].last() == k);
                }
            }
        }
    }
    assert(reach_keys(next) =~= reach_keys(ks).remove(k));
}

/// One catch-up step of an intersection join: with `k` the greatest head key,
/// dropping the head of each stream whose head is below `k` loses no key that
/// every stream of `ks` held.
pub proof fn lemma_intersection_advance(ks: Seq<Seq<u64>>, cur: Seq<Seq<u64>>, next: Seq<Seq<u64>>, k: u64)
    requires
        all_increasing(cur),
        next.len() == cur.len(),
        forall|x: u64| in_all(ks, x) ==> in_all(cur, x),
        forall|i: int| 0 <= i < cur.len() ==> (#[trigger] cur[i]).len() > 0 && cur[i][0] <= k,
        exists|j: int| 0 <= j < cur.len() && (#[trigger] cur[j])[0] == k,
        forall|i: int|
            0 <= i < cur.len() ==> #[trigger] next[i] == (if cur[i][0] < k {
                cur[i].drop_first()
            } else {
                cur[i]
            }),
    ensures
        forall|x: u64| in_all(ks, x) ==> in_all(next, x),
{
    let j = choose|j: int| 0 <= j < cur.len() && (#[trigger] cur[j])[0] == k;
    assert forall|x: u64| in_all(ks, x) implies in_all(next, x) by {
        assert(cur[j].contains(x));
        let t = choose|t: int| 0 <= t < cur[j].len() && cur[j][t] == x;
        if t > 0 {
            assert(cur[j][0] < cur[j][t]);
        }
        assert forall|i: int| 0 <= i < next.len() implies (#[trigger] next[i]).contains(x) by {
            assert(cur[i].contains(x));
            if cur[i][0] < k {
                let u = choose|u: int| 0 <= u < cur[i].len() && cur[i][u] == x;
                assert(u > 0);
                assert(next[i][u - 1] == x);
            }
        }
    }
}

/// When every key of `ks` held by all streams is still held in `cur`, and the
/// first stream of `cur` starts at `k`, no key below `k` is held by all
/// streams of `ks`.
pub proof fn lemma_intersection_found(ks: Seq<Seq<u64>>, cur: Seq<Seq<u64>>, k: u64)
    requires
        cur.len() > 0,
        increasing(cur[0]),
        cur[0].len() > 0,
        cur[0][0] == k,
        forall|x: u64| in_all(ks, x) ==> in_all(cur, x),
    ensures
        forall|x: u64| x < k ==> !in_all(ks, x),
{
    assert forall|x: u64| x < k implies !in_all(ks, x) by {
        if in_all(ks, x) {
            assert(cur[0].contains(x));
            let t = choose|t: int| 0 <= t < cur[0].len() && cur[0][t] == x;
            if t > 0 {
                assert(cur[0][0] < cur[0][t]);
            }
        }
    }
}

} // verus!
