//! The intersection join: a row for each key that every stream holds.
use vstd::prelude::*;
use crate::keys::{
    all_increasing, common_keys, in_all, lemma_common_keys_finite, lemma_intersection_advance,
    lemma_intersection_found, lemma_intersection_step, least_common,
};
use crate::stream::{
    ascending, keys_of, lemma_head, lemma_keys_of, lemma_taken_through, taken_through, Stream,
};

verus! {

/// An intersection join over a tuple of streams. Each call of `next` yields
/// the least key that every stream still holds, with the value that each
/// stream pairs with it, and drops everything up to that key from every
/// stream.
pub struct KVAJoin<T> {
    streams: T,
}

impl<A, B> KVAJoin<(Stream<A>, Stream<B>)> {
    /// The pairs left in each stream.
    pub closed spec fn parts(&self) -> (Seq<(u64, A)>, Seq<(u64, B)>) {
        (self.streams.0@, self.streams.1@)
    }

    /// The keys left in each stream.
    pub open spec fn key_seqs(&self) -> Seq<Seq<u64>> {
        seq![keys_of(self.parts().0), keys_of(self.parts().1)]
    }

    /// Every stream is in strictly increasing key order.
    pub open spec fn wf(&self) -> bool {
        ascending(self.parts().0) && ascending(self.parts().1)
    }

    /// The join of two streams.
    pub fn of_two(s0: Stream<A>, s1: Stream<B>) -> (j: Self)
        requires
            ascending(s0@),
            ascending(s1@),
        ensures
            j.parts() == (s0@, s1@),
            j.wf(),
    {
        KVAJoin { streams: (s0, s1) }
    }

    /// The next row: the least key held by every stream, with the value of
    /// each; `None` when no key is held by all of them.
    pub fn next(&mut self) -> (r: Option<(u64, (A, B))>)
        requires
            old(self).wf(),
        ensures
            final(self).wf(),
            r is None ==> forall|x: u64| !in_all(old(self).key_seqs(), x),
            r matches Some((k, (a, b))) ==> {
                &&& least_common(old(self).key_seqs(), k)
                &&& taken_through(old(self).parts().0, final(self).parts().0, k, a)
                &&& taken_through(old(self).parts().1, final(self).parts().1, k, b)
            },
    {
        let ghost ks0 = self.key_seqs();
        let ghost p0 = self.parts().0;
        let ghost p1 = self.parts().1;
        let ghost mut d0: int = 0;
        let ghost mut d1: int = 0;
        assert(p0.skip(0) == p0);
        assert(p1.skip(0) == p1);
        loop
            invariant
                0 <= d0 <= p0.len(),
                self.parts().0 == p0.skip(d0),
                ascending(p0),
                p0 == old(self).parts().0,
                0 <= d1 <= p1.len(),
                self.parts().1 == p1.skip(d1),
                ascending(p1),
                p1 == old(self).parts().1,
                ks0 == old(self).key_seqs(),
                self.wf(),
                forall|x: u64| in_all(ks0, x) ==> in_all(self.key_seqs(), x),
            decreases self.parts().0.len() + self.parts().1.len(),
        {
            let ghost cur = self.key_seqs();
            let ghost c0 = self.parts().0;
            let ghost c1 = self.parts().1;
            let h0 = match self.streams.0.head_key() {
                Some(k) => k,
                None => {
                    assert forall|x: u64| !in_all(ks0, x) by {
                        if in_all(ks0, x) {
                            assert(cur[0].contains(x));
                            assert(cur[0] == keys_of(c0));
                        }
                    }
                    return None;
                },
            };
            let h1 = match self.streams.1.head_key() {
                Some(k) => k,
                None => {
                    assert forall|x: u64| !in_all(ks0, x) by {
                        if in_all(ks0, x) {
                            assert(cur[1].contains(x));
                            assert(cur[1] == keys_of(c1));
                        }
                    }
                    return None;
                },
            };
            proof {
                lemma_head(c0);
                lemma_head(c1);
            }
            let k = if h0 < h1 { h1 } else { h0 };
            if h0 == k && h1 == k {
                let (_, a) = self.streams.0.pull().unwrap();
                let (_, b) = self.streams.1.pull().unwrap();
                proof {
                    assert(p0[d0] == (k, a));
                    assert(p0.skip(d0).drop_first() == p0.skip(d0 + 1));
                    lemma_keys_of(p0);
                    assert(keys_of(p0)[d0] == k);
                    assert(p1[d1] == (k, b));
                    assert(p1.skip(d1).drop_first() == p1.skip(d1 + 1));
                    lemma_keys_of(p1);
                    assert(keys_of(p1)[d1] == k);
                    assert(in_all(ks0, k));
                    lemma_keys_of(c0);
                    lemma_intersection_found(ks0, cur, k);
                }
                return Some((k, (a, b)));
            }
            self.streams.0.skip_below(k);
            self.streams.1.skip_below(k);
            proof {
                assert(p0.skip(d0).drop_first() == p0.skip(d0 + 1));
                assert(p1.skip(d1).drop_first() == p1.skip(d1 + 1));
                d0 = if h0 < k { d0 + 1 } else { d0 };
                d1 = if h1 < k { d1 + 1 } else { d1 };
            }
            proof {
                let nks = self.key_seqs();
                lemma_keys_of(c0);
                lemma_keys_of(c1);
                assert(all_increasing(cur));
                assert(cur[0][0] == k || cur[1][0] == k);
                assert forall|i: int| 0 <= i < cur.len() implies #[trigger] nks[i] == (if cur[i][0] < k {
                    cur[i].drop_first()
                } else {
                    cur[i]
                }) by {
                    assert(nks[0] == keys_of(self.parts().0));
                    assert(nks[1] == keys_of(self.parts().1));
                }
                lemma_intersection_advance(ks0, cur, nks, k);
            }
        }
    }

    /// Every row, in order, until the join is exhausted: one for each key
    /// that every stream holds, in increasing key order.
    pub fn rows(&mut self) -> (rows: Vec<(u64, (A, B))>)
        requires
            old(self).wf(),
        ensures
            final(self).wf(),
            rows@.len() == common_keys(old(self).key_seqs()).len(),
            forall|i: int| 0 <= i < rows@.len() ==> common_keys(old(self).key_seqs()).contains(#[trigger] rows@[i].0),
            forall|i: int, j: int| 0 <= i < j < rows@.len() ==> rows@[i].0 < rows@[j].0,
            forall|i: int|
                0 <= i < rows@.len() ==> {
                    &&& old(self).parts().0.contains((#[trigger] rows@[i].0, rows@[i].1.0))
                    &&& old(self).parts().1.contains((rows@[i].0, rows@[i].1.1))
                },
    {
        let ghost start = *self;
        let mut rows: Vec<(u64, (A, B))> = Vec::new();
        proof {
            lemma_common_keys_finite(start.key_seqs());
        }
        loop
            invariant
                self.wf(),
                start == *old(self),
                common_keys(self.key_seqs()).finite(),
                common_keys(start.key_seqs()).finite(),
                rows@.len() + common_keys(self.key_seqs()).len() == common_keys(start.key_seqs()).len(),
                forall|x: u64| common_keys(self.key_seqs()).contains(x) ==> common_keys(start.key_seqs()).contains(x),
                forall|i: int| 0 <= i < rows@.len() ==> common_keys(start.key_seqs()).contains(#[trigger] rows@[i].0),
                forall|i: int, x: u64|
                    0 <= i < rows@.len() && #[trigger] common_keys(self.key_seqs()).contains(x) ==> #[trigger] rows@[i].0 < x,
                forall|i: int, j: int| 0 <= i < j < rows@.len() ==> rows@[i].0 < rows@[j].0,
                forall|p: (u64, A)| self.parts().0.contains(p) ==> start.parts().0.contains(p),
                forall|p: (u64, B)| self.parts().1.contains(p) ==> start.parts().1.contains(p),
                forall|i: int|
                    0 <= i < rows@.len() ==> {
                        &&& start.parts().0.contains((#[trigger] rows@[i].0, rows@[i].1.0))
                        &&& start.parts().1.contains((rows@[i].0, rows@[i].1.1))
                    },
            decreases common_keys(self.key_seqs()).len(),
        {
            let ghost cur = *self;
            match self.next() {
                None => {
                    proof {
                        lemma_common_keys_finite(cur.key_seqs());
                        assert(common_keys(cur.key_seqs()) =~= Set::empty());
                    }
                    return rows;
                },
                Some((k, (a, b))) => {
                    proof {
                        lemma_taken_through(cur.parts().0, self.parts().0, k, a);
                        lemma_taken_through(cur.parts().1, self.parts().1, k, b);
                        let ks = cur.key_seqs();
                        let nks = self.key_seqs();
                        assert forall|i: int, x: u64| 0 <= i < ks.len() implies (#[trigger] nks[i].contains(x)
                            <==> ks[i].contains(x) && x > k) by {
                            assert(keys_of(self.parts().0).contains(x) <==> keys_of(cur.parts().0).contains(x) && x > k);
                            assert(keys_of(self.parts().1).contains(x) <==> keys_of(cur.parts().1).contains(x) && x > k);
                        }
                        lemma_intersection_step(ks, nks, k);
                        lemma_common_keys_finite(nks);
                    }
                    rows.push((k, (a, b)));
                },
            }
        }
    }
}

impl<A, B, C> KVAJoin<(Stream<A>, Stream<B>, Stream<C>)> {
    /// The pairs left in each stream.
    pub closed spec fn parts(&self) -> (Seq<(u64, A)>, Seq<(u64, B)>, Seq<(u64, C)>) {
        (self.streams.0@, self.streams.1@, self.streams.2@)
    }

    /// The keys left in each stream.
    pub open spec fn key_seqs(&self) -> Seq<Seq<u64>> {
        seq![keys_of(self.parts().0), keys_of(self.parts().1), keys_of(self.parts().2)]
    }

    /// Every stream is in strictly increasing key order.
    pub open spec fn wf(&self) -> bool {
        ascending(self.parts().0) && ascending(self.parts().1) && ascending(self.parts().2)
    }

    /// The join of three streams.
    pub fn of_three(s0: Stream<A>, s1: Stream<B>, s2: Stream<C>) -> (j: Self)
        requires
            ascending(s0@),
            ascending(s1@),
            ascending(s2@),
        ensures
            j.parts() == (s0@, s1@, s2@),
            j.wf(),
    {
        KVAJoin { streams: (s0, s1, s2) }
    }

    /// The next row: the least key held by every stream, with the value of
    /// each; `None` when no key is held by all of them.
    pub fn next(&mut self) -> (r: Option<(u64, (A, B, C))>)
        requires
            old(self).wf(),
        ensures
            final(self).wf(),
            r is None ==> forall|x: u64| !in_all(old(self).key_seqs(), x),
            r matches Some((k, (a, b, c))) ==> {
                &&& least_common(old(self).key_seqs(), k)
                &&& taken_through(old(self).parts().0, final(self).parts().0, k, a)
                &&& taken_through(old(self).parts().1, final(self).parts().1, k, b)
                &&& taken_through(old(self).parts().2, final(self).parts().2, k, c)
            },
    {
        let ghost ks0 = self.key_seqs();
        let ghost p0 = self.parts().0;
        let ghost p1 = self.parts().1;
        let ghost p2 = self.parts().2;
        let ghost mut d0: int = 0;
        let ghost mut d1: int = 0;
        let ghost mut d2: int = 0;
        assert(p0.skip(0) == p0);
        assert(p1.skip(0) == p1);
        assert(p2.skip(0) == p2);
        loop
            invariant
                0 <= d0 <= p0.len(),
                self.parts().0 == p0.skip(d0),
                ascending(p0),
                p0 == old(self).parts().0,
                0 <= d1 <= p1.len(),
                self.parts().1 == p1.skip(d1),
                ascending(p1),
                p1 == old(self).parts().1,
                0 <= d2 <= p2.len(),
                self.parts().2 == p2.skip(d2),
                ascending(p2),
                p2 == old(self).parts().2,
                ks0 == old(self).key_seqs(),
                self.wf(),
                forall|x: u64| in_all(ks0, x) ==> in_all(self.key_seqs(), x),
            decreases self.parts().0.len() + self.parts().1.len() + self.parts().2.len(),
        {
            let ghost cur = self.key_seqs();
            let ghost c0 = self.parts().0;
            let ghost c1 = self.parts().1;
            let ghost c2 = self.parts().2;
            let h0 = match self.streams.0.head_key() {
                Some(k) => k,
                None => {
                    assert forall|x: u64| !in_all(ks0, x) by {
                        if in_all(ks0, x) {
                            assert(cur[0].contains(x));
                            assert(cur[0] == keys_of(c0));
                        }
                    }
                    return None;
                },
            };
            let h1 = match self.streams.1.head_key() {
                Some(k) => k,
                None => {
                    assert forall|x: u64| !in_all(ks0, x) by {
                        if in_all(ks0, x) {
                            assert(cur[1].contains(x));
                            assert(cur[1] == keys_of(c1));
                        }
                    }
                    return None;
                },
            };
            let h2 = match self.streams.2.head_key() {
                Some(k) => k,
                None => {
                    assert forall|x: u64| !in_all(ks0, x) by {
                        if in_all(ks0, x) {
                            assert(cur[2].contains(x));
                            assert(cur[2] == keys_of(c2));
                        }
                    }
                    return None;
                },
            };
            proof {
                lemma_head(c0);
                lemma_head(c1);
                lemma_head(c2);
            }
            let k = if h0 < h1 { h1 } else { h0 };
            let k = if k < h2 { h2 } else { k };
            if h0 == k && h1 == k && h2 == k {
                let (_, a) = self.streams.0.pull().unwrap();
                let (_, b) = self.streams.1.pull().unwrap();
                let (_, c) = self.streams.2.pull().unwrap();
                proof {
                    assert(p0[d0] == (k, a));
                    assert(p0.skip(d0).drop_first() == p0.skip(d0 + 1));
                    lemma_keys_of(p0);
                    assert(keys_of(p0)[d0] == k);
                    assert(p1[d1] == (k, b));
                    assert(p1.skip(d1).drop_first() == p1.skip(d1 + 1));
                    lemma_keys_of(p1);
                    assert(keys_of(p1)[d1] == k);
                    assert(p2[d2] == (k, c));
                    assert(p2.skip(d2).drop_first() == p2.skip(d2 + 1));
                    lemma_keys_of(p2);
                    assert(keys_of(p2)[d2] == k);
                    assert(in_all(ks0, k));
                    lemma_keys_of(c0);
                    lemma_intersection_found(ks0, cur, k);
                }
                return Some((k, (a, b, c)));
            }
            self.streams.0.skip_below(k);
            self.streams.1.skip_below(k);
            self.streams.2.skip_below(k);
            proof {
                assert(p0.skip(d0).drop_first() == p0.skip(d0 + 1));
                assert(p1.skip(d1).drop_first() == p1.skip(d1 + 1));
                assert(p2.skip(d2).drop_first() == p2.skip(d2 + 1));
                d0 = if h0 < k { d0 + 1 } else { d0 };
                d1 = if h1 < k { d1 + 1 } else { d1 };
                d2 = if h2 < k { d2 + 1 } else { d2 };
            }
            proof {
                let nks = self.key_seqs();
                lemma_keys_of(c0);
                lemma_keys_of(c1);
                lemma_keys_of(c2);
                assert(all_increasing(cur));
                assert(cur[0][0] == k || cur[1][0] == k || cur[2][0] == k);
                assert forall|i: int| 0 <= i < cur.len() implies #[trigger] nks[i] == (if cur[i][0] < k {
                    cur[i].drop_first()
                } else {
                    cur[i]
                }) by {
                    assert(nks[0] == keys_of(self.parts().0));
                    assert(nks[1] == keys_of(self.parts().1));
                    assert(nks[2] == keys_of(self.parts().2));
                }
                lemma_intersection_advance(ks0, cur, nks, k);
            }
        }
    }

    /// Every row, in order, until the join is exhausted: one for each key
    /// that every stream holds, in increasing key order.
    pub fn rows(&mut self) -> (rows: Vec<(u64, (A, B, C))>)
        requires
            old(self).wf(),
        ensures
            final(self).wf(),
            rows@.len() == common_keys(old(self).key_seqs()).len(),
            forall|i: int| 0 <= i < rows@.len() ==> common_keys(old(self).key_seqs()).contains(#[trigger] rows@[i].0),
            forall|i: int, j: int| 0 <= i < j < rows@.len() ==> rows@[i].0 < rows@[j].0,
            forall|i: int|
                0 <= i < rows@.len() ==> {
                    &&& old(self).parts().0.contains((#[trigger] rows@[i].0, rows@[i].1.0))
                    &&& old(self).parts().1.contains((rows@[i].0, rows@[i].1.1))
                    &&& old(self).parts().2.contains((rows@[i].0, rows@[i].1.2))
                },
    {
        let ghost start = *self;
        let mut rows: Vec<(u64, (A, B, C))> = Vec::new();
        proof {
            lemma_common_keys_finite(start.key_seqs());
        }
        loop
            invariant
                self.wf(),
                start == *old(self),
                common_keys(self.key_seqs()).finite(),
                common_keys(start.key_seqs()).finite(),
                rows@.len() + common_keys(self.key_seqs()).len() == common_keys(start.key_seqs()).len(),
                forall|x: u64| common_keys(self.key_seqs()).contains(x) ==> common_keys(start.key_seqs()).contains(x),
                forall|i: int| 0 <= i < rows@.len() ==> common_keys(start.key_seqs()).contains(#[trigger] rows@[i].0),
                forall|i: int, x: u64|
                    0 <= i < rows@.len() && #[trigger] common_keys(self.key_seqs()).contains(x) ==> #[trigger] rows@[i].0 < x,
                forall|i: int, j: int| 0 <= i < j < rows@.len() ==> rows@[i].0 < rows@[j].0,
                forall|p: (u64, A)| self.parts().0.contains(p) ==> start.parts().0.contains(p),
                forall|p: (u64, B)| self.parts().1.contains(p) ==> start.parts().1.contains(p),
                forall|p: (u64, C)| self.parts().2.contains(p) ==> start.parts().2.contains(p),
                forall|i: int|
                    0 <= i < rows@.len() ==> {
                        &&& start.parts().0.contains((#[trigger] rows@[i].0, rows@[i].1.0))
                        &&& start.parts().1.contains((rows@[i].0, rows@[i].1.1))
                        &&& start.parts().2.contains((rows@[i].0, rows@[i].1.2))
                    },
            decreases common_keys(self.key_seqs()).len(),
        {
            let ghost cur = *self;
            match self.next() {
                None => {
                    proof {
                        lemma_common_keys_finite(cur.key_seqs());
                        assert(common_keys(cur.key_seqs()) =~= Set::empty());
                    }
                    return rows;
                },
                Some((k, (a, b, c))) => {
                    proof {
                        lemma_taken_through(cur.parts().0, self.parts().0, k, a);
                        lemma_taken_through(cur.parts().1, self.parts().1, k, b);
                        lemma_taken_through(cur.parts().2, self.parts().2, k, c);
                        let ks = cur.key_seqs();
                        let nks = self.key_seqs();
                        assert forall|i: int, x: u64| 0 <= i < ks.len() implies (#[trigger] nks[i].contains(x)
                            <==> ks[i].contains(x) && x > k) by {
                            assert(keys_of(self.parts().0).contains(x) <==> keys_of(cur.parts().0).contains(x) && x > k);
                            assert(keys_of(self.parts().1).contains(x) <==> keys_of(cur.parts().1).contains(x) && x > k);
                            assert(keys_of(self.parts().2).contains(x) <==> keys_of(cur.parts().2).contains(x) && x > k);
                        }
                        lemma_intersection_step(ks, nks, k);
                        lemma_common_keys_finite(nks);
                    }
                    rows.push((k, (a, b, c)));
                },
            }
        }
    }
}

impl<A, B, C, D> KVAJoin<(Stream<A>, Stream<B>, Stream<C>, Stream<D>)> {
    /// The pairs left in each stream.
    pub closed spec fn parts(&self) -> (Seq<(u64, A)>, Seq<(u64, B)>, Seq<(u64, C)>, Seq<(u64, D)>) {
        (self.streams.0@, self.streams.1@, self.streams.2@, self.streams.3@)
    }

    /// The keys left in each stream.
    pub open spec fn key_seqs(&self) -> Seq<Seq<u64>> {
        seq![keys_of(self.parts().0), keys_of(self.parts().1), keys_of(self.parts().2), keys_of(self.parts().3)]
    }

    /// Every stream is in strictly increasing key order.
    pub open spec fn wf(&self) -> bool {
        ascending(self.parts().0) && ascending(self.parts().1) && ascending(self.parts().2) && ascending(self.parts().3)
    }

    /// The join of four streams.
    pub fn of_four(s0: Stream<A>, s1: Stream<B>, s2: Stream<C>, s3: Stream<D>) -> (j: Self)
        requires
            ascending(s0@),
            ascending(s1@),
            ascending(s2@),
            ascending(s3@),
        ensures
            j.parts() == (s0@, s1@, s2@, s3@),
            j.wf(),
    {
        KVAJoin { streams: (s0, s1, s2, s3) }
    }

    /// The next row: the least key held by every stream, with the value of
    /// each; `None` when no key is held by all of them.
    pub fn next(&mut self) -> (r: Option<(u64, (A, B, C, D))>)
        requires
            old(self).wf(),
        ensures
            final(self).wf(),
            r is None ==> forall|x: u64| !in_all(old(self).key_seqs(), x),
            r matches Some((k, (a, b, c, d))) ==> {
                &&& least_common(old(self).key_seqs(), k)
                &&& taken_through(old(self).parts().0, final(self).parts().0, k, a)
                &&& taken_through(old(self).parts().1, final(self).parts().1, k, b)
                &&& taken_through(old(self).parts().2, final(self).parts().2, k, c)
                &&& taken_through(old(self).parts().3, final(self).parts().3, k, d)
            },
    {
        let ghost ks0 = self.key_seqs();
        let ghost p0 = self.parts().0;
        let ghost p1 = self.parts().1;
        let ghost p2 = self.parts().2;
        let ghost p3 = self.parts().3;
        let ghost mut d0: int = 0;
        let ghost mut d1: int = 0;
        let ghost mut d2: int = 0;
        let ghost mut d3: int = 0;
        assert(p0.skip(0) == p0);
        assert(p1.skip(0) == p1);
        assert(p2.skip(0) == p2);
        assert(p3.skip(0) == p3);
        loop
            invariant
                0 <= d0 <= p0.len(),
                self.parts().0 == p0.skip(d0),
                ascending(p0),
                p0 == old(self).parts().0,
                0 <= d1 <= p1.len(),
                self.parts().1 == p1.skip(d1),
                ascending(p1),
                p1 == old(self).parts().1,
                0 <= d2 <= p2.len(),
                self.parts().2 == p2.skip(d2),
                ascending(p2),
                p2 == old(self).parts().2,
                0 <= d3 <= p3.len(),
                self.parts().3 == p3.skip(d3),
                ascending(p3),
                p3 == old(self).parts().3,
                ks0 == old(self).key_seqs(),
                self.wf(),
                forall|x: u64| in_all(ks0, x) ==> in_all(self.key_seqs(), x),
            decreases self.parts().0.len() + self.parts().1.len() + self.parts().2.len() + self.parts().3.len(),
        {
            let ghost cur = self.key_seqs();
            let ghost c0 = self.parts().0;
            let ghost c1 = self.parts().1;
            let ghost c2 = self.parts().2;
            let ghost c3 = self.parts().3;
            let h0 = match self.streams.0.head_key() {
                Some(k) => k,
                None => {
                    assert forall|x: u64| !in_all(ks0, x) by {
                        if in_all(ks0, x) {
                            assert(cur[0].contains(x));
                            assert(cur[0] == keys_of(c0));
                        }
                    }
                    return None;
                },
            };
            let h1 = match self.streams.1.head_key() {
                Some(k) => k,
                None => {
                    assert forall|x: u64| !in_all(ks0, x) by {
                        if in_all(ks0, x) {
                            assert(cur[1].contains(x));
                            assert(cur[1] == keys_of(c1));
                        }
                    }
                    return None;
                },
            };
            let h2 = match self.streams.2.head_key() {
                Some(k) => k,
                None => {
                    assert forall|x: u64| !in_all(ks0, x) by {
                        if in_all(ks0, x) {
                            assert(cur[2].contains(x));
                            assert(cur[2] == keys_of(c2));
                        }
                    }
                    return None;
                },
            };
            let h3 = match self.streams.3.head_key() {
                Some(k) => k,
                None => {
                    assert forall|x: u64| !in_all(ks0, x) by {
                        if in_all(ks0, x) {
                            assert(cur[3].contains(x));
                            assert(cur[3] == keys_of(c3));
                        }
                    }
                    return None;
                },
            };
            proof {
                lemma_head(c0);
                lemma_head(c1);
                lemma_head(c2);
                lemma_head(c3);
            }
            let k = if h0 < h1 { h1 } else { h0 };
            let k = if k < h2 { h2 } else { k };
            let k = if k < h3 { h3 } else { k };
            if h0 == k && h1 == k && h2 == k && h3 == k {
                let (_, a) = self.streams.0.pull().unwrap();
                let (_, b) = self.streams.1.pull().unwrap();
                let (_, c) = self.streams.2.pull().unwrap();
                let (_, d) = self.streams.3.pull().unwrap();
                proof {
                    assert(p0[d0] == (k, a));
                    assert(p0.skip(d0).drop_first() == p0.skip(d0 + 1));
                    lemma_keys_of(p0);
                    assert(keys_of(p0)[d0] == k);
                    assert(p1[d1] == (k, b));
                    assert(p1.skip(d1).drop_first() == p1.skip(d1 + 1));
                    lemma_keys_of(p1);
                    assert(keys_of(p1)[d1] == k);
                    assert(p2[d2] == (k, c));
                    assert(p2.skip(d2).drop_first() == p2.skip(d2 + 1));
                    lemma_keys_of(p2);
                    assert(keys_of(p2)[d2] == k);
                    assert(p3[d3] == (k, d));
                    assert(p3.skip(d3).drop_first() == p3.skip(d3 + 1));
                    lemma_keys_of(p3);
                    assert(keys_of(p3)[d3] == k);
                    assert(in_all(ks0, k));
                    lemma_keys_of(c0);
                    lemma_intersection_found(ks0, cur, k);
                }
                return Some((k, (a, b, c, d)));
            }
            self.streams.0.skip_below(k);
            self.streams.1.skip_below(k);
            self.streams.2.skip_below(k);
            self.streams.3.skip_below(k);
            proof {
                assert(p0.skip(d0).drop_first() == p0.skip(d0 + 1));
                assert(p1.skip(d1).drop_first() == p1.skip(d1 + 1));
                assert(p2.skip(d2).drop_first() == p2.skip(d2 + 1));
                assert(p3.skip(d3).drop_first() == p3.skip(d3 + 1));
                d0 = if h0 < k { d0 + 1 } else { d0 };
                d1 = if h1 < k { d1 + 1 } else { d1 };
                d2 = if h2 < k { d2 + 1 } else { d2 };
                d3 = if h3 < k { d3 + 1 } else { d3 };
            }
            proof {
                let nks = self.key_seqs();
                lemma_keys_of(c0);
                lemma_keys_of(c1);
                lemma_keys_of(c2);
                lemma_keys_of(c3);
                assert(all_increasing(cur));
                assert(cur[0][0] == k || cur[1][0] == k || cur[2][0] == k || cur[3][0] == k);
                assert forall|i: int| 0 <= i < cur.len() implies #[trigger] nks[i] == (if cur[i][0] < k {
                    cur[i].drop_first()
                } else {
                    cur[i]
                }) by {
                    assert(nks[0] == keys_of(self.parts().0));
                    assert(nks[1] == keys_of(self.parts().1));
                    assert(nks[2] == keys_of(self.parts().2));
                    assert(nks[3] == keys_of(self.parts().3));
                }
                lemma_intersection_advance(ks0, cur, nks, k);
            }
        }
    }

    /// Every row, in order, until the join is exhausted: one for each key
    /// that every stream holds, in increasing key order.
    pub fn rows(&mut self) -> (rows: Vec<(u64, (A, B, C, D))>)
        requires
            old(self).wf(),
        ensures
            final(self).wf(),
            rows@.len() == common_keys(old(self).key_seqs()).len(),
            forall|i: int| 0 <= i < rows@.len() ==> common_keys(old(self).key_seqs()).contains(#[trigger] rows@[i].0),
            forall|i: int, j: int| 0 <= i < j < rows@.len() ==> rows@[i].0 < rows@[j].0,
            forall|i: int|
                0 <= i < rows@.len() ==> {
                    &&& old(self).parts().0.contains((#[trigger] rows@[i].0, rows@[i].1.0))
                    &&& old(self).parts().1.contains((rows@[i].0, rows@[i].1.1))
                    &&& old(self).parts().2.contains((rows@[i].0, rows@[i].1.2))
                    &&& old(self).parts().3.contains((rows@[i].0, rows@[i].1.3))
                },
    {
        let ghost start = *self;
        let mut rows: Vec<(u64, (A, B, C, D))> = Vec::new();
        proof {
            lemma_common_keys_finite(start.key_seqs());
        }
        loop
            invariant
                self.wf(),
                start == *old(self),
                common_keys(self.key_seqs()).finite(),
                common_keys(start.key_seqs()).finite(),
                rows@.len() + common_keys(self.key_seqs()).len() == common_keys(start.key_seqs()).len(),
                forall|x: u64| common_keys(self.key_seqs()).contains(x) ==> common_keys(start.key_seqs()).contains(x),
                forall|i: int| 0 <= i < rows@.len() ==> common_keys(start.key_seqs()).contains(#[trigger] rows@[i].0),
                forall|i: int, x: u64|
                    0 <= i < rows@.len() && #[trigger] common_keys(self.key_seqs()).contains(x) ==> #[trigger] rows@[i].0 < x,
                forall|i: int, j: int| 0 <= i < j < rows@.len() ==> rows@[i].0 < rows@[j].0,
                forall|p: (u64, A)| self.parts().0.contains(p) ==> start.parts().0.contains(p),
                forall|p: (u64, B)| self.parts().1.contains(p) ==> start.parts().1.contains(p),
                forall|p: (u64, C)| self.parts().2.contains(p) ==> start.parts().2.contains(p),
                forall|p: (u64, D)| self.parts().3.contains(p) ==> start.parts().3.contains(p),
                forall|i: int|
                    0 <= i < rows@.len() ==> {
                        &&& start.parts().0.contains((#[trigger] rows@[i].0, rows@[i].1.0))
                        &&& start.parts().1.contains((rows@[i].0, rows@[i].1.1))
                        &&& start.parts().2.contains((rows@[i].0, rows@[i].1.2))
                        &&& start.parts().3.contains((rows@[i].0, rows@[i].1.3))
                    },
            decreases common_keys(self.key_seqs()).len(),
        {
            let ghost cur = *self;
            match self.next() {
                None => {
                    proof {
                        lemma_common_keys_finite(cur.key_seqs());
                        assert(common_keys(cur.key_seqs()) =~= Set::empty());
                    }
                    return rows;
                },
                Some((k, (a, b, c, d))) => {
                    proof {
                        lemma_taken_through(cur.parts().0, self.parts().0, k, a);
                        lemma_taken_through(cur.parts().1, self.parts().1, k, b);
                        lemma_taken_through(cur.parts().2, self.parts().2, k, c);
                        lemma_taken_through(cur.parts().3, self.parts().3, k, d);
                        let ks = cur.key_seqs();
                        let nks = self.key_seqs();
                        assert forall|i: int, x: u64| 0 <= i < ks.len() implies (#[trigger] nks[i].contains(x)
                            <==> ks[i].contains(x) && x > k) by {
                            assert(keys_of(self.parts().0).contains(x) <==> keys_of(cur.parts().0).contains(x) && x > k);
                            assert(keys_of(self.parts().1).contains(x) <==> keys_of(cur.parts().1).contains(x) && x > k);
                            assert(keys_of(self.parts().2).contains(x) <==> keys_of(cur.parts().2).contains(x) && x > k);
                            assert(keys_of(self.parts().3).contains(x) <==> keys_of(cur.parts().3).contains(x) && x > k);
                        }
                        lemma_intersection_step(ks, nks, k);
                        lemma_common_keys_finite(nks);
                    }
                    rows.push((k, (a, b, c, d)));
                },
            }
        }
    }
}

impl<A, B, C, D, E> KVAJoin<(Stream<A>, Stream<B>, Stream<C>, Stream<D>, Stream<E>)> {
    /// The pairs left in each stream.
    pub closed spec fn parts(&self) -> (Seq<(u64, A)>, Seq<(u64, B)>, Seq<(u64, C)>, Seq<(u64, D)>, Seq<(u64, E)>) {
        (self.streams.0@, self.streams.1@, self.streams.2@, self.streams.3@, self.streams.4@)
    }

    /// The keys left in each stream.
    pub open spec fn key_seqs(&self) -> Seq<Seq<u64>> {
        seq![keys_of(self.parts().0), keys_of(self.parts().1), keys_of(self.parts().2), keys_of(self.parts().3), keys_of(self.parts().4)]
    }

    /// Every stream is in strictly increasing key order.
    pub open spec fn wf(&self) -> bool {
        ascending(self.parts().0) && ascending(self.parts().1) && ascending(self.parts().2) && ascending(self.parts().3) && ascending(self.parts().4)
    }

    /// The join of five streams.
    pub fn of_five(s0: Stream<A>, s1: Stream<B>, s2: Stream<C>, s3: Stream<D>, s4: Stream<E>) -> (j: Self)
        requires
            ascending(s0@),
            ascending(s1@),
            ascending(s2@),
            ascending(s3@),
            ascending(s4@),
        ensures
            j.parts() == (s0@, s1@, s2@, s3@, s4@),
            j.wf(),
    {
        KVAJoin { streams: (s0, s1, s2, s3, s4) }
    }

    /// The next row: the least key held by every stream, with the value of
    /// each; `None` when no key is held by all of them.
    pub fn next(&mut self) -> (r: Option<(u64, (A, B, C, D, E))>)
        requires
            old(self).wf(),
        ensures
            final(self).wf(),
            r is None ==> forall|x: u64| !in_all(old(self).key_seqs(), x),
            r matches Some((k, (a, b, c, d, e))) ==> {
                &&& least_common(old(self).key_seqs(), k)
                &&& taken_through(old(self).parts().0, final(self).parts().0, k, a)
                &&& taken_through(old(self).parts().1, final(self).parts().1, k, b)
                &&& taken_through(old(self).parts().2, final(self).parts().2, k, c)
                &&& taken_through(old(self).parts().3, final(self).parts().3, k, d)
                &&& taken_through(old(self).parts().4, final(self).parts().4, k, e)
            },
    {
        let ghost ks0 = self.key_seqs();
        let ghost p0 = self.parts().0;
        let ghost p1 = self.parts().1;
        let ghost p2 = self.parts().2;
        let ghost p3 = self.parts().3;
        let ghost p4 = self.parts().4;
        let ghost mut d0: int = 0;
        let ghost mut d1: int = 0;
        let ghost mut d2: int = 0;
        let ghost mut d3: int = 0;
        let ghost mut d4: int = 0;
        assert(p0.skip(0) == p0);
        assert(p1.skip(0) == p1);
        assert(p2.skip(0) == p2);
        assert(p3.skip(0) == p3);
        assert(p4.skip(0) == p4);
        loop
            invariant
                0 <= d0 <= p0.len(),
                self.parts().0 == p0.skip(d0),
                ascending(p0),
                p0 == old(self).parts().0,
                0 <= d1 <= p1.len(),
                self.parts().1 == p1.skip(d1),
                ascending(p1),
                p1 == old(self).parts().1,
                0 <= d2 <= p2.len(),
                self.parts().2 == p2.skip(d2),
                ascending(p2),
                p2 == old(self).parts().2,
                0 <= d3 <= p3.len(),
                self.parts().3 == p3.skip(d3),
                ascending(p3),
                p3 == old(self).parts().3,
                0 <= d4 <= p4.len(),
                self.parts().4 == p4.skip(d4),
                ascending(p4),
                p4 == old(self).parts().4,
                ks0 == old(self).key_seqs(),
                self.wf(),
                forall|x: u64| in_all(ks0, x) ==> in_all(self.key_seqs(), x),
            decreases self.parts().0.len() + self.parts().1.len() + self.parts().2.len() + self.parts().3.len() + self.parts().4.len(),
        {
            let ghost cur = self.key_seqs();
            let ghost c0 = self.parts().0;
            let ghost c1 = self.parts().1;
            let ghost c2 = self.parts().2;
            let ghost c3 = self.parts().3;
            let ghost c4 = self.parts().4;
            let h0 = match self.streams.0.head_key() {
                Some(k) => k,
                None => {
                    assert forall|x: u64| !in_all(ks0, x) by {
                        if in_all(ks0, x) {
                            assert(cur[0].contains(x));
                            assert(cur[0] == keys_of(c0));
                        }
                    }
                    return None;
                },
            };
            let h1 = match self.streams.1.head_key() {
                Some(k) => k,
                None => {
                    assert forall|x: u64| !in_all(ks0, x) by {
                        if in_all(ks0, x) {
                            assert(cur[1].contains(x));
                            assert(cur[1] == keys_of(c1));
                        }
                    }
                    return None;
                },
            };
            let h2 = match self.streams.2.head_key() {
                Some(k) => k,
                None => {
                    assert forall|x: u64| !in_all(ks0, x) by {
                        if in_all(ks0, x) {
                            assert(cur[2].contains(x));
                            assert(cur[2] == keys_of(c2));
                        }
                    }
                    return None;
                },
            };
            let h3 = match self.streams.3.head_key() {
                Some(k) => k,
                None => {
                    assert forall|x: u64| !in_all(ks0, x) by {
                        if in_all(ks0, x) {
                            assert(cur[3].contains(x));
                            assert(cur[3] == keys_of(c3));
                        }
                    }
                    return None;
                },
            };
            let h4 = match self.streams.4.head_key() {
                Some(k) => k,
                None => {
                    assert forall|x: u64| !in_all(ks0, x) by {
                        if in_all(ks0, x) {
                            assert(cur[4].contains(x));
                            assert(cur[4] == keys_of(c4));
                        }
                    }
                    return None;
                },
            };
            proof {
                lemma_head(c0);
                lemma_head(c1);
                lemma_head(c2);
                lemma_head(c3);
                lemma_head(c4);
            }
            let k = if h0 < h1 { h1 } else { h0 };
            let k = if k < h2 { h2 } else { k };
            let k = if k < h3 { h3 } else { k };
            let k = if k < h4 { h4 } else { k };
            if h0 == k && h1 == k && h2 == k && h3 == k && h4 == k {
                let (_, a) = self.streams.0.pull().unwrap();
                let (_, b) = self.streams.1.pull().unwrap();
                let (_, c) = self.streams.2.pull().unwrap();
                let (_, d) = self.streams.3.pull().unwrap();
                let (_, e) = self.streams.4.pull().unwrap();
                proof {
                    assert(p0[d0] == (k, a));
                    assert(p0.skip(d0).drop_first() == p0.skip(d0 + 1));
                    lemma_keys_of(p0);
                    assert(keys_of(p0)[d0] == k);
                    assert(p1[d1] == (k, b));
                    assert(p1.skip(d1).drop_first() == p1.skip(d1 + 1));
                    lemma_keys_of(p1);
                    assert(keys_of(p1)[d1] == k);
                    assert(p2[d2] == (k, c));
                    assert(p2.skip(d2).drop_first() == p2.skip(d2 + 1));
                    lemma_keys_of(p2);
                    assert(keys_of(p2)[d2] == k);
                    assert(p3[d3] == (k, d));
                    assert(p3.skip(d3).drop_first() == p3.skip(d3 + 1));
                    lemma_keys_of(p3);
                    assert(keys_of(p3)[d3] == k);
                    assert(p4[d4] == (k, e));
                    assert(p4.skip(d4).drop_first() == p4.skip(d4 + 1));
                    lemma_keys_of(p4);
                    assert(keys_of(p4)[d4] == k);
                    assert(in_all(ks0, k));
                    lemma_keys_of(c0);
                    lemma_intersection_found(ks0, cur, k);
                }
                return Some((k, (a, b, c, d, e)));
            }
            self.streams.0.skip_below(k);
            self.streams.1.skip_below(k);
            self.streams.2.skip_below(k);
            self.streams.3.skip_below(k);
            self.streams.4.skip_below(k);
            proof {
                assert(p0.skip(d0).drop_first() == p0.skip(d0 + 1));
                assert(p1.skip(d1).drop_first() == p1.skip(d1 + 1));
                assert(p2.skip(d2).drop_first() == p2.skip(d2 + 1));
                assert(p3.skip(d3).drop_first() == p3.skip(d3 + 1));
                assert(p4.skip(d4).drop_first() == p4.skip(d4 + 1));
                d0 = if h0 < k { d0 + 1 } else { d0 };
                d1 = if h1 < k { d1 + 1 } else { d1 };
                d2 = if h2 < k { d2 + 1 } else { d2 };
                d3 = if h3 < k { d3 + 1 } else { d3 };
                d4 = if h4 < k { d4 + 1 } else { d4 };
            }
            proof {
                let nks = self.key_seqs();
                lemma_keys_of(c0);
                lemma_keys_of(c1);
                lemma_keys_of(c2);
                lemma_keys_of(c3);
                lemma_keys_of(c4);
                assert(all_increasing(cur));
                assert(cur[0][0] == k || cur[1][0] == k || cur[2][0] == k || cur[3][0] == k || cur[4][0] == k);
                assert forall|i: int| 0 <= i < cur.len() implies #[trigger] nks[i] == (if cur[i][0] < k {
                    cur[i].drop_first()
                } else {
                    cur[i]
                }) by {
                    assert(nks[0] == keys_of(self.parts().0));
                    assert(nks[1] == keys_of(self.parts().1));
                    assert(nks[2] == keys_of(self.parts().2));
                    assert(nks[3] == keys_of(self.parts().3));
                    assert(nks[4] == keys_of(self.parts().4));
                }
                lemma_intersection_advance(ks0, cur, nks, k);
            }
        }
    }

    /// Every row, in order, until the join is exhausted: one for each key
    /// that every stream holds, in increasing key order.
    pub fn rows(&mut self) -> (rows: Vec<(u64, (A, B, C, D, E))>)
        requires
            old(self).wf(),
        ensures
            final(self).wf(),
            rows@.len() == common_keys(old(self).key_seqs()).len(),
            forall|i: int| 0 <= i < rows@.len() ==> common_keys(old(self).key_seqs()).contains(#[trigger] rows@[i].0),
            forall|i: int, j: int| 0 <= i < j < rows@.len() ==> rows@[i].0 < rows@[j].0,
            forall|i: int|
                0 <= i < rows@.len() ==> {
                    &&& old(self).parts().0.contains((#[trigger] rows@[i].0, rows@[i].1.0))
                    &&& old(self).parts().1.contains((rows@[i].0, rows@[i].1.1))
                    &&& old(self).parts().2.contains((rows@[i].0, rows@[i].1.2))
                    &&& old(self).parts().3.contains((rows@[i].0, rows@[i].1.3))
                    &&& old(self).parts().4.contains((rows@[i].0, rows@[i].1.4))
                },
    {
        let ghost start = *self;
        let mut rows: Vec<(u64, (A, B, C, D, E))> = Vec::new();
        proof {
            lemma_common_keys_finite(start.key_seqs());
        }
        loop
            invariant
                self.wf(),
                start == *old(self),
                common_keys(self.key_seqs()).finite(),
                common_keys(start.key_seqs()).finite(),
                rows@.len() + common_keys(self.key_seqs()).len() == common_keys(start.key_seqs()).len(),
                forall|x: u64| common_keys(self.key_seqs()).contains(x) ==> common_keys(start.key_seqs()).contains(x),
                forall|i: int| 0 <= i < rows@.len() ==> common_keys(start.key_seqs()).contains(#[trigger] rows@[i].0),
                forall|i: int, x: u64|
                    0 <= i < rows@.len() && #[trigger] common_keys(self.key_seqs()).contains(x) ==> #[trigger] rows@[i].0 < x,
                forall|i: int, j: int| 0 <= i < j < rows@.len() ==> rows@[i].0 < rows@[j].0,
                forall|p: (u64, A)| self.parts().0.contains(p) ==> start.parts().0.contains(p),
                forall|p: (u64, B)| self.parts().1.contains(p) ==> start.parts().1.contains(p),
                forall|p: (u64, C)| self.parts().2.contains(p) ==> start.parts().2.contains(p),
                forall|p: (u64, D)| self.parts().3.contains(p) ==> start.parts().3.contains(p),
                forall|p: (u64, E)| self.parts().4.contains(p) ==> start.parts().4.contains(p),
                forall|i: int|
                    0 <= i < rows@.len() ==> {
                        &&& start.parts().0.contains((#[trigger] rows@[i].0, rows@[i].1.0))
                        &&& start.parts().1.contains((rows@[i].0, rows@[i].1.1))
                        &&& start.parts().2.contains((rows@[i].0, rows@[i].1.2))
                        &&& start.parts().3.contains((rows@[i].0, rows@[i].1.3))
                        &&& start.parts().4.contains((rows@[i].0, rows@[i].1.4))
                    },
            decreases common_keys(self.key_seqs()).len(),
        {
            let ghost cur = *self;
            match self.next() {
                None => {
                    proof {
                        lemma_common_keys_finite(cur.key_seqs());
                        assert(common_keys(cur.key_seqs()) =~= Set::empty());
                    }
                    return rows;
                },
                Some((k, (a, b, c, d, e))) => {
                    proof {
                        lemma_taken_through(cur.parts().0, self.parts().0, k, a);
                        lemma_taken_through(cur.parts().1, self.parts().1, k, b);
                        lemma_taken_through(cur.parts().2, self.parts().2, k, c);
                        lemma_taken_through(cur.parts().3, self.parts().3, k, d);
                        lemma_taken_through(cur.parts().4, self.parts().4, k, e);
                        let ks = cur.key_seqs();
                        let nks = self.key_seqs();
                        assert forall|i: int, x: u64| 0 <= i < ks.len() implies (#[trigger] nks[i].contains(x)
                            <==> ks[i].contains(x) && x > k) by {
                            assert(keys_of(self.parts().0).contains(x) <==> keys_of(cur.parts().0).contains(x) && x > k);
                            assert(keys_of(self.parts().1).contains(x) <==> keys_of(cur.parts().1).contains(x) && x > k);
                            assert(keys_of(self.parts().2).contains(x) <==> keys_of(cur.parts().2).contains(x) && x > k);
                            assert(keys_of(self.parts().3).contains(x) <==> keys_of(cur.parts().3).contains(x) && x > k);
                            assert(keys_of(self.parts().4).contains(x) <==> keys_of(cur.parts().4).contains(x) && x > k);
                        }
                        lemma_intersection_step(ks, nks, k);
                        lemma_common_keys_finite(nks);
                    }
                    rows.push((k, (a, b, c, d, e)));
                },
            }
        }
    }
}

impl<A, B, C, D, E, F> KVAJoin<(Stream<A>, Stream<B>, Stream<C>, Stream<D>, Stream<E>, Stream<F>)> {
    /// The pairs left in each stream.
    pub closed spec fn parts(&self) -> (Seq<(u64, A)>, Seq<(u64, B)>, Seq<(u64, C)>, Seq<(u64, D)>, Seq<(u64, E)>, Seq<(u64, F)>) {
        (self.streams.0@, self.streams.1@, self.streams.2@, self.streams.3@, self.streams.4@, self.streams.5@)
    }

    /// The keys left in each stream.
    pub open spec fn key_seqs(&self) -> Seq<Seq<u64>> {
        seq![keys_of(self.parts().0), keys_of(self.parts().1), keys_of(self.parts().2), keys_of(self.parts().3), keys_of(self.parts().4), keys_of(self.parts().5)]
    }

    /// Every stream is in strictly increasing key order.
    pub open spec fn wf(&self) -> bool {
        ascending(self.parts().0) && ascending(self.parts().1) && ascending(self.parts().2) && ascending(self.parts().3) && ascending(self.parts().4) && ascending(self.parts().5)
    }

    /// The join of six streams.
    pub fn of_six(s0: Stream<A>, s1: Stream<B>, s2: Stream<C>, s3: Stream<D>, s4: Stream<E>, s5: Stream<F>) -> (j: Self)
        requires
            ascending(s0@),
            ascending(s1@),
            ascending(s2@),
            ascending(s3@),
            ascending(s4@),
            ascending(s5@),
        ensures
            j.parts() == (s0@, s1@, s2@, s3@, s4@, s5@),
            j.wf(),
    {
        KVAJoin { streams: (s0, s1, s2, s3, s4, s5) }
    }

    /// The next row: the least key held by every stream, with the value of
    /// each; `None` when no key is held by all of them.
    #[verifier::rlimit(100)]
    pub fn next(&mut self) -> (r: Option<(u64, (A, B, C, D, E, F))>)
        requires
            old(self).wf(),
        ensures
            final(self).wf(),
            r is None ==> forall|x: u64| !in_all(old(self).key_seqs(), x),
            r matches Some((k, (a, b, c, d, e, f))) ==> {
                &&& least_common(old(self).key_seqs(), k)
                &&& taken_through(old(self).parts().0, final(self).parts().0, k, a)
                &&& taken_through(old(self).parts().1, final(self).parts().1, k, b)
                &&& taken_through(old(self).parts().2, final(self).parts().2, k, c)
                &&& taken_through(old(self).parts().3, final(self).parts().3, k, d)
                &&& taken_through(old(self).parts().4, final(self).parts().4, k, e)
                &&& taken_through(old(self).parts().5, final(self).parts().5, k, f)
            },
    {
        let ghost ks0 = self.key_seqs();
        let ghost p0 = self.parts().0;
        let ghost p1 = self.parts().1;
        let ghost p2 = self.parts().2;
        let ghost p3 = self.parts().3;
        let ghost p4 = self.parts().4;
        let ghost p5 = self.parts().5;
        let ghost mut d0: int = 0;
        let ghost mut d1: int = 0;
        let ghost mut d2: int = 0;
        let ghost mut d3: int = 0;
        let ghost mut d4: int = 0;
        let ghost mut d5: int = 0;
        assert(p0.skip(0) == p0);
        assert(p1.skip(0) == p1);
        assert(p2.skip(0) == p2);
        assert(p3.skip(0) == p3);
        assert(p4.skip(0) == p4);
        assert(p5.skip(0) == p5);
        loop
            invariant
                0 <= d0 <= p0.len(),
                self.parts().0 == p0.skip(d0),
                ascending(p0),
                p0 == old(self).parts().0,
                0 <= d1 <= p1.len(),
                self.parts().1 == p1.skip(d1),
                ascending(p1),
                p1 == old(self).parts().1,
                0 <= d2 <= p2.len(),
                self.parts().2 == p2.skip(d2),
                ascending(p2),
                p2 == old(self).parts().2,
                0 <= d3 <= p3.len(),
                self.parts().3 == p3.skip(d3),
                ascending(p3),
                p3 == old(self).parts().3,
                0 <= d4 <= p4.len(),
                self.parts().4 == p4.skip(d4),
                ascending(p4),
                p4 == old(self).parts().4,
                0 <= d5 <= p5.len(),
                self.parts().5 == p5.skip(d5),
                ascending(p5),
                p5 == old(self).parts().5,
                ks0 == old(self).key_seqs(),
                self.wf(),
                forall|x: u64| in_all(ks0, x) ==> in_all(self.key_seqs(), x),
            decreases self.parts().0.len() + self.parts().1.len() + self.parts().2.len() + self.parts().3.len() + self.parts().4.len() + self.parts().5.len(),
        {
            let ghost cur = self.key_seqs();
            let ghost c0 = self.parts().0;
            let ghost c1 = self.parts().1;
            let ghost c2 = self.parts().2;
            let ghost c3 = self.parts().3;
            let ghost c4 = self.parts().4;
            let ghost c5 = self.parts().5;
            let h0 = match self.streams.0.head_key() {
                Some(k) => k,
                None => {
                    assert forall|x: u64| !in_all(ks0, x) by {
                        if in_all(ks0, x) {
                            assert(cur[0].contains(x));
                            assert(cur[0] == keys_of(c0));
                        }
                    }
                    return None;
                },
            };
            let h1 = match self.streams.1.head_key() {
                Some(k) => k,
                None => {
                    assert forall|x: u64| !in_all(ks0, x) by {
                        if in_all(ks0, x) {
                            assert(cur[1].contains(x));
                            assert(cur[1] == keys_of(c1));
                        }
                    }
                    return None;
                },
            };
            let h2 = match self.streams.2.head_key() {
                Some(k) => k,
                None => {
                    assert forall|x: u64| !in_all(ks0, x) by {
                        if in_all(ks0, x) {
                            assert(cur[2].contains(x));
                            assert(cur[2] == keys_of(c2));
                        }
                    }
                    return None;
                },
            };
            let h3 = match self.streams.3.head_key() {
                Some(k) => k,
                None => {
                    assert forall|x: u64| !in_all(ks0, x) by {
                        if in_all(ks0, x) {
                            assert(cur[3].contains(x));
                            assert(cur[3] == keys_of(c3));
                        }
                    }
                    return None;
                },
            };
            let h4 = match self.streams.4.head_key() {
                Some(k) => k,
                None => {
                    assert forall|x: u64| !in_all(ks0, x) by {
                        if in_all(ks0, x) {
                            assert(cur[4].contains(x));
                            assert(cur[4] == keys_of(c4));
                        }
                    }
                    return None;
                },
            };
            let h5 = match self.streams.5.head_key() {
                Some(k) => k,
                None => {
                    assert forall|x: u64| !in_all(ks0, x) by {
                        if in_all(ks0, x) {
                            assert(cur[5].contains(x));
                            assert(cur[5] == keys_of(c5));
                        }
                    }
                    return None;
                },
            };
            proof {
                lemma_head(c0);
                lemma_head(c1);
                lemma_head(c2);
                lemma_head(c3);
                lemma_head(c4);
                lemma_head(c5);
            }
            let k = if h0 < h1 { h1 } else { h0 };
            let k = if k < h2 { h2 } else { k };
            let k = if k < h3 { h3 } else { k };
            let k = if k < h4 { h4 } else { k };
            let k = if k < h5 { h5 } else { k };
            if h0 == k && h1 == k && h2 == k && h3 == k && h4 == k && h5 == k {
                let (_, a) = self.streams.0.pull().unwrap();
                let (_, b) = self.streams.1.pull().unwrap();
                let (_, c) = self.streams.2.pull().unwrap();
                let (_, d) = self.streams.3.pull().unwrap();
                let (_, e) = self.streams.4.pull().unwrap();
                let (_, f) = self.streams.5.pull().unwrap();
                proof {
                    assert(p0[d0] == (k, a));
                    assert(p0.skip(d0).drop_first() == p0.skip(d0 + 1));
                    lemma_keys_of(p0);
                    assert(keys_of(p0)[d0] == k);
                    assert(p1[d1] == (k, b));
                    assert(p1.skip(d1).drop_first() == p1.skip(d1 + 1));
                    lemma_keys_of(p1);
                    assert(keys_of(p1)[d1] == k);
                    assert(p2[d2] == (k, c));
                    assert(p2.skip(d2).drop_first() == p2.skip(d2 + 1));
                    lemma_keys_of(p2);
                    assert(keys_of(p2)[d2] == k);
                    assert(p3[d3] == (k, d));
                    assert(p3.skip(d3).drop_first() == p3.skip(d3 + 1));
                    lemma_keys_of(p3);
                    assert(keys_of(p3)[d3] == k);
                    assert(p4[d4] == (k, e));
                    assert(p4.skip(d4).drop_first() == p4.skip(d4 + 1));
                    lemma_keys_of(p4);
                    assert(keys_of(p4)[d4] == k);
                    assert(p5[d5] == (k, f));
                    assert(p5.skip(d5).drop_first() == p5.skip(d5 + 1));
                    lemma_keys_of(p5);
                    assert(keys_of(p5)[d5] == k);
                    assert(in_all(ks0, k));
                    lemma_keys_of(c0);
                    lemma_intersection_found(ks0, cur, k);
                }
                return Some((k, (a, b, c, d, e, f)));
            }
            self.streams.0.skip_below(k);
            self.streams.1.skip_below(k);
            self.streams.2.skip_below(k);
            self.streams.3.skip_below(k);
            self.streams.4.skip_below(k);
            self.streams.5.skip_below(k);
            proof {
                assert(p0.skip(d0).drop_first() == p0.skip(d0 + 1));
                assert(p1.skip(d1).drop_first() == p1.skip(d1 + 1));
                assert(p2.skip(d2).drop_first() == p2.skip(d2 + 1));
                assert(p3.skip(d3).drop_first() == p3.skip(d3 + 1));
                assert(p4.skip(d4).drop_first() == p4.skip(d4 + 1));
                assert(p5.skip(d5).drop_first() == p5.skip(d5 + 1));
                d0 = if h0 < k { d0 + 1 } else { d0 };
                d1 = if h1 < k { d1 + 1 } else { d1 };
                d2 = if h2 < k { d2 + 1 } else { d2 };
                d3 = if h3 < k { d3 + 1 } else { d3 };
                d4 = if h4 < k { d4 + 1 } else { d4 };
                d5 = if h5 < k { d5 + 1 } else { d5 };
            }
            proof {
                let nks = self.key_seqs();
                lemma_keys_of(c0);
                lemma_keys_of(c1);
                lemma_keys_of(c2);
                lemma_keys_of(c3);
                lemma_keys_of(c4);
                lemma_keys_of(c5);
                assert(all_increasing(cur));
                assert(cur[0][0] == k || cur[1][0] == k || cur[2][0] == k || cur[3][0] == k || cur[4][0] == k || cur[5][0] == k);
                assert forall|i: int| 0 <= i < cur.len() implies #[trigger] nks[i] == (if cur[i][0] < k {
                    cur[i].drop_first()
                } else {
                    cur[i]
                }) by {
                    assert(nks[0] == keys_of(self.parts().0));
                    assert(nks[1] == keys_of(self.parts().1));
                    assert(nks[2] == keys_of(self.parts().2));
                    assert(nks[3] == keys_of(self.parts().3));
                    assert(nks[4] == keys_of(self.parts().4));
                    assert(nks[5] == keys_of(self.parts().5));
                }
                lemma_intersection_advance(ks0, cur, nks, k);
            }
        }
    }

    /// Every row, in order, until the join is exhausted: one for each key
    /// that every stream holds, in increasing key order.
    #[verifier::rlimit(100)]
    pub fn rows(&mut self) -> (rows: Vec<(u64, (A, B, C, D, E, F))>)
        requires
            old(self).wf(),
        ensures
            final(self).wf(),
            rows@.len() == common_keys(old(self).key_seqs()).len(),
            forall|i: int| 0 <= i < rows@.len() ==> common_keys(old(self).key_seqs()).contains(#[trigger] rows@[i].0),
            forall|i: int, j: int| 0 <= i < j < rows@.len() ==> rows@[i].0 < rows@[j].0,
            forall|i: int|
                0 <= i < rows@.len() ==> {
                    &&& old(self).parts().0.contains((#[trigger] rows@[i].0, rows@[i].1.0))
                    &&& old(self).parts().1.contains((rows@[i].0, rows@[i].1.1))
                    &&& old(self).parts().2.contains((rows@[i].0, rows@[i].1.2))
                    &&& old(self).parts().3.contains((rows@[i].0, rows@[i].1.3))
                    &&& old(self).parts().4.contains((rows@[i].0, rows@[i].1.4))
                    &&& old(self).parts().5.contains((rows@[i].0, rows@[i].1.5))
                },
    {
        let ghost start = *self;
        let mut rows: Vec<(u64, (A, B, C, D, E, F))> = Vec::new();
        proof {
            lemma_common_keys_finite(start.key_seqs());
        }
        loop
            invariant
                self.wf(),
                start == *old(self),
                common_keys(self.key_seqs()).finite(),
                common_keys(start.key_seqs()).finite(),
                rows@.len() + common_keys(self.key_seqs()).len() == common_keys(start.key_seqs()).len(),
                forall|x: u64| common_keys(self.key_seqs()).contains(x) ==> common_keys(start.key_seqs()).contains(x),
                forall|i: int| 0 <= i < rows@.len() ==> common_keys(start.key_seqs()).contains(#[trigger] rows@[i].0),
                forall|i: int, x: u64|
                    0 <= i < rows@.len() && #[trigger] common_keys(self.key_seqs()).contains(x) ==> #[trigger] rows@[i].0 < x,
                forall|i: int, j: int| 0 <= i < j < rows@.len() ==> rows@[i].0 < rows@[j].0,
                forall|p: (u64, A)| self.parts().0.contains(p) ==> start.parts().0.contains(p),
                forall|p: (u64, B)| self.parts().1.contains(p) ==> start.parts().1.contains(p),
                forall|p: (u64, C)| self.parts().2.contains(p) ==> start.parts().2.contains(p),
                forall|p: (u64, D)| self.parts().3.contains(p) ==> start.parts().3.contains(p),
                forall|p: (u64, E)| self.parts().4.contains(p) ==> start.parts().4.contains(p),
                forall|p: (u64, F)| self.parts().5.contains(p) ==> start.parts().5.contains(p),
                forall|i: int|
                    0 <= i < rows@.len() ==> {
                        &&& start.parts().0.contains((#[trigger] rows@[i].0, rows@[i].1.0))
                        &&& start.parts().1.contains((rows@[i].0, rows@[i].1.1))
                        &&& start.parts().2.contains((rows@[i].0, rows@[i].1.2))
                        &&& start.parts().3.contains((rows@[i].0, rows@[i].1.3))
                        &&& start.parts().4.contains((rows@[i].0, rows@[i].1.4))
                        &&& start.parts().5.contains((rows@[i].0, rows@[i].1.5))
                    },
            decreases common_keys(self.key_seqs()).len(),
        {
            let ghost cur = *self;
            match self.next() {
                None => {
                    proof {
                        lemma_common_keys_finite(cur.key_seqs());
                        assert(common_keys(cur.key_seqs()) =~= Set::empty());
                    }
                    return rows;
                },
                Some((k, (a, b, c, d, e, f))) => {
                    proof {
                        lemma_taken_through(cur.parts().0, self.parts().0, k, a);
                        lemma_taken_through(cur.parts().1, self.parts().1, k, b);
                        lemma_taken_through(cur.parts().2, self.parts().2, k, c);
                        lemma_taken_through(cur.parts().3, self.parts().3, k, d);
                        lemma_taken_through(cur.parts().4, self.parts().4, k, e);
                        lemma_taken_through(cur.parts().5, self.parts().5, k, f);
                        let ks = cur.key_seqs();
                        let nks = self.key_seqs();
                        assert forall|i: int, x: u64| 0 <= i < ks.len() implies (#[trigger] nks[i].contains(x)
                            <==> ks[i].contains(x) && x > k) by {
                            assert(keys_of(self.parts().0).contains(x) <==> keys_of(cur.parts().0).contains(x) && x > k);
                            assert(keys_of(self.parts().1).contains(x) <==> keys_of(cur.parts().1).contains(x) && x > k);
                            assert(keys_of(self.parts().2).contains(x) <==> keys_of(cur.parts().2).contains(x) && x > k);
                            assert(keys_of(self.parts().3).contains(x) <==> keys_of(cur.parts().3).contains(x) && x > k);
                            assert(keys_of(self.parts().4).contains(x) <==> keys_of(cur.parts().4).contains(x) && x > k);
                            assert(keys_of(self.parts().5).contains(x) <==> keys_of(cur.parts().5).contains(x) && x > k);
                        }
                        lemma_intersection_step(ks, nks, k);
                        lemma_common_keys_finite(nks);
                    }
                    rows.push((k, (a, b, c, d, e, f)));
                },
            }
        }
    }
}

impl<A, B, C, D, E, F, G> KVAJoin<(Stream<A>, Stream<B>, Stream<C>, Stream<D>, Stream<E>, Stream<F>, Stream<G>)> {
    /// The pairs left in each stream.
    pub closed spec fn parts(&self) -> (Seq<(u64, A)>, Seq<(u64, B)>, Seq<(u64, C)>, Seq<(u64, D)>, Seq<(u64, E)>, Seq<(u64, F)>, Seq<(u64, G)>) {
        (self.streams.0@, self.streams.1@, self.streams.2@, self.streams.3@, self.streams.4@, self.streams.5@, self.streams.6@)
    }

    /// The keys left in each stream.
    pub open spec fn key_seqs(&self) -> Seq<Seq<u64>> {
        seq![keys_of(self.parts().0), keys_of(self.parts().1), keys_of(self.parts().2), keys_of(self.parts().3), keys_of(self.parts().4), keys_of(self.parts().5), keys_of(self.parts().6)]
    }

    /// Every stream is in strictly increasing key order.
    pub open spec fn wf(&self) -> bool {
        ascending(self.parts().0) && ascending(self.parts().1) && ascending(self.parts().2) && ascending(self.parts().3) && ascending(self.parts().4) && ascending(self.parts().5) && ascending(self.parts().6)
    }

    /// The join of seven streams.
    pub fn of_seven(s0: Stream<A>, s1: Stream<B>, s2: Stream<C>, s3: Stream<D>, s4: Stream<E>, s5: Stream<F>, s6: Stream<G>) -> (j: Self)
        requires
            ascending(s0@),
            ascending(s1@),
            ascending(s2@),
            ascending(s3@),
            ascending(s4@),
            ascending(s5@),
            ascending(s6@),
        ensures
            j.parts() == (s0@, s1@, s2@, s3@, s4@, s5@, s6@),
            j.wf(),
    {
        KVAJoin { streams: (s0, s1, s2, s3, s4, s5, s6) }
    }

    /// The next row: the least key held by every stream, with the value of
    /// each; `None` when no key is held by all of them.
    #[verifier::rlimit(100)]
    pub fn next(&mut self) -> (r: Option<(u64, (A, B, C, D, E, F, G))>)
        requires
            old(self).wf(),
        ensures
            final(self).wf(),
            r is None ==> forall|x: u64| !in_all(old(self).key_seqs(), x),
            r matches Some((k, (a, b, c, d, e, f, g))) ==> {
                &&& least_common(old(self).key_seqs(), k)
                &&& taken_through(old(self).parts().0, final(self).parts().0, k, a)
                &&& taken_through(old(self).parts().1, final(self).parts().1, k, b)
                &&& taken_through(old(self).parts().2, final(self).parts().2, k, c)
                &&& taken_through(old(self).parts().3, final(self).parts().3, k, d)
                &&& taken_through(old(self).parts().4, final(self).parts().4, k, e)
                &&& taken_through(old(self).parts().5, final(self).parts().5, k, f)
                &&& taken_through(old(self).parts().6, final(self).parts().6, k, g)
            },
    {
        let ghost ks0 = self.key_seqs();
        let ghost p0 = self.parts().0;
        let ghost p1 = self.parts().1;
        let ghost p2 = self.parts().2;
        let ghost p3 = self.parts().3;
        let ghost p4 = self.parts().4;
        let ghost p5 = self.parts().5;
        let ghost p6 = self.parts().6;
        let ghost mut d0: int = 0;
        let ghost mut d1: int = 0;
        let ghost mut d2: int = 0;
        let ghost mut d3: int = 0;
        let ghost mut d4: int = 0;
        let ghost mut d5: int = 0;
        let ghost mut d6: int = 0;
        assert(p0.skip(0) == p0);
        assert(p1.skip(0) == p1);
        assert(p2.skip(0) == p2);
        assert(p3.skip(0) == p3);
        assert(p4.skip(0) == p4);
        assert(p5.skip(0) == p5);
        assert(p6.skip(0) == p6);
        loop
            invariant
                0 <= d0 <= p0.len(),
                self.parts().0 == p0.skip(d0),
                ascending(p0),
                p0 == old(self).parts().0,
                0 <= d1 <= p1.len(),
                self.parts().1 == p1.skip(d1),
                ascending(p1),
                p1 == old(self).parts().1,
                0 <= d2 <= p2.len(),
                self.parts().2 == p2.skip(d2),
                ascending(p2),
                p2 == old(self).parts().2,
                0 <= d3 <= p3.len(),
                self.parts().3 == p3.skip(d3),
                ascending(p3),
                p3 == old(self).parts().3,
                0 <= d4 <= p4.len(),
                self.parts().4 == p4.skip(d4),
                ascending(p4),
                p4 == old(self).parts().4,
                0 <= d5 <= p5.len(),
                self.parts().5 == p5.skip(d5),
                ascending(p5),
                p5 == old(self).parts().5,
                0 <= d6 <= p6.len(),
                self.parts().6 == p6.skip(d6),
                ascending(p6),
                p6 == old(self).parts().6,
                ks0 == old(self).key_seqs(),
                self.wf(),
                forall|x: u64| in_all(ks0, x) ==> in_all(self.key_seqs(), x),
            decreases self.parts().0.len() + self.parts().1.len() + self.parts().2.len() + self.parts().3.len() + self.parts().4.len() + self.parts().5.len() + self.parts().6.len(),
        {
            let ghost cur = self.key_seqs();
            let ghost c0 = self.parts().0;
            let ghost c1 = self.parts().1;
            let ghost c2 = self.parts().2;
            let ghost c3 = self.parts().3;
            let ghost c4 = self.parts().4;
            let ghost c5 = self.parts().5;
            let ghost c6 = self.parts().6;
            let h0 = match self.streams.0.head_key() {
                Some(k) => k,
                None => {
                    assert forall|x: u64| !in_all(ks0, x) by {
                        if in_all(ks0, x) {
                            assert(cur[0].contains(x));
                            assert(cur[0] == keys_of(c0));
                        }
                    }
                    return None;
                },
            };
            let h1 = match self.streams.1.head_key() {
                Some(k) => k,
                None => {
                    assert forall|x: u64| !in_all(ks0, x) by {
                        if in_all(ks0, x) {
                            assert(cur[1].contains(x));
                            assert(cur[1] == keys_of(c1));
                        }
                    }
                    return None;
                },
            };
            let h2 = match self.streams.2.head_key() {
                Some(k) => k,
                None => {
                    assert forall|x: u64| !in_all(ks0, x) by {
                        if in_all(ks0, x) {
                            assert(cur[2].contains(x));
                            assert(cur[2] == keys_of(c2));
                        }
                    }
                    return None;
                },
            };
            let h3 = match self.streams.3.head_key() {
                Some(k) => k,
                None => {
                    assert forall|x: u64| !in_all(ks0, x) by {
                        if in_all(ks0, x) {
                            assert(cur[3].contains(x));
                            assert(cur[3] == keys_of(c3));
                        }
                    }
                    return None;
                },
            };
            let h4 = match self.streams.4.head_key() {
                Some(k) => k,
                None => {
                    assert forall|x: u64| !in_all(ks0, x) by {
                        if in_all(ks0, x) {
                            assert(cur[4].contains(x));
                            assert(cur[4] == keys_of(c4));
                        }
                    }
                    return None;
                },
            };
            let h5 = match self.streams.5.head_key() {
                Some(k) => k,
                None => {
                    assert forall|x: u64| !in_all(ks0, x) by {
                        if in_all(ks0, x) {
                            assert(cur[5].contains(x));
                            assert(cur[5] == keys_of(c5));
                        }
                    }
                    return None;
                },
            };
            let h6 = match self.streams.6.head_key() {
                Some(k) => k,
                None => {
                    assert forall|x: u64| !in_all(ks0, x) by {
                        if in_all(ks0, x) {
                            assert(cur[6].contains(x));
                            assert(cur[6] == keys_of(c6));
                        }
                    }
                    return None;
                },
            };
            proof {
                lemma_head(c0);
                lemma_head(c1);
                lemma_head(c2);
                lemma_head(c3);
                lemma_head(c4);
                lemma_head(c5);
                lemma_head(c6);
            }
            let k = if h0 < h1 { h1 } else { h0 };
            let k = if k < h2 { h2 } else { k };
            let k = if k < h3 { h3 } else { k };
            let k = if k < h4 { h4 } else { k };
            let k = if k < h5 { h5 } else { k };
            let k = if k < h6 { h6 } else { k };
            if h0 == k && h1 == k && h2 == k && h3 == k && h4 == k && h5 == k && h6 == k {
                let (_, a) = self.streams.0.pull().unwrap();
                let (_, b) = self.streams.1.pull().unwrap();
                let (_, c) = self.streams.2.pull().unwrap();
                let (_, d) = self.streams.3.pull().unwrap();
                let (_, e) = self.streams.4.pull().unwrap();
                let (_, f) = self.streams.5.pull().unwrap();
                let (_, g) = self.streams.6.pull().unwrap();
                proof {
                    assert(p0[d0] == (k, a));
                    assert(p0.skip(d0).drop_first() == p0.skip(d0 + 1));
                    lemma_keys_of(p0);
                    assert(keys_of(p0)[d0] == k);
                    assert(p1[d1] == (k, b));
                    assert(p1.skip(d1).drop_first() == p1.skip(d1 + 1));
                    lemma_keys_of(p1);
                    assert(keys_of(p1)[d1] == k);
                    assert(p2[d2] == (k, c));
                    assert(p2.skip(d2).drop_first() == p2.skip(d2 + 1));
                    lemma_keys_of(p2);
                    assert(keys_of(p2)[d2] == k);
                    assert(p3[d3] == (k, d));
                    assert(p3.skip(d3).drop_first() == p3.skip(d3 + 1));
                    lemma_keys_of(p3);
                    assert(keys_of(p3)[d3] == k);
                    assert(p4[d4] == (k, e));
                    assert(p4.skip(d4).drop_first() == p4.skip(d4 + 1));
                    lemma_keys_of(p4);
                    assert(keys_of(p4)[d4] == k);
                    assert(p5[d5] == (k, f));
                    assert(p5.skip(d5).drop_first() == p5.skip(d5 + 1));
                    lemma_keys_of(p5);
                    assert(keys_of(p5)[d5] == k);
                    assert(p6[d6] == (k, g));
                    assert(p6.skip(d6).drop_first() == p6.skip(d6 + 1));
                    lemma_keys_of(p6);
                    assert(keys_of(p6)[d6] == k);
                    assert(in_all(ks0, k));
                    lemma_keys_of(c0);
                    lemma_intersection_found(ks0, cur, k);
                }
                return Some((k, (a, b, c, d, e, f, g)));
            }
            self.streams.0.skip_below(k);
            self.streams.1.skip_below(k);
            self.streams.2.skip_below(k);
            self.streams.3.skip_below(k);
            self.streams.4.skip_below(k);
            self.streams.5.skip_below(k);
            self.streams.6.skip_below(k);
            proof {
                assert(p0.skip(d0).drop_first() == p0.skip(d0 + 1));
                assert(p1.skip(d1).drop_first() == p1.skip(d1 + 1));
                assert(p2.skip(d2).drop_first() == p2.skip(d2 + 1));
                assert(p3.skip(d3).drop_first() == p3.skip(d3 + 1));
                assert(p4.skip(d4).drop_first() == p4.skip(d4 + 1));
                assert(p5.skip(d5).drop_first() == p5.skip(d5 + 1));
                assert(p6.skip(d6).drop_first() == p6.skip(d6 + 1));
                d0 = if h0 < k { d0 + 1 } else { d0 };
                d1 = if h1 < k { d1 + 1 } else { d1 };
                d2 = if h2 < k { d2 + 1 } else { d2 };
                d3 = if h3 < k { d3 + 1 } else { d3 };
                d4 = if h4 < k { d4 + 1 } else { d4 };
                d5 = if h5 < k { d5 + 1 } else { d5 };
                d6 = if h6 < k { d6 + 1 } else { d6 };
            }
            proof {
                let nks = self.key_seqs();
                lemma_keys_of(c0);
                lemma_keys_of(c1);
                lemma_keys_of(c2);
                lemma_keys_of(c3);
                lemma_keys_of(c4);
                lemma_keys_of(c5);
                lemma_keys_of(c6);
                assert(all_increasing(cur));
                assert(cur[0][0] == k || cur[1][0] == k || cur[2][0] == k || cur[3][0] == k || cur[4][0] == k || cur[5][0] == k || cur[6][0] == k);
                assert forall|i: int| 0 <= i < cur.len() implies #[trigger] nks[i] == (if cur[i][0] < k {
                    cur[i].drop_first()
                } else {
                    cur[i]
                }) by {
                    assert(nks[0] == keys_of(self.parts().0));
                    assert(nks[1] == keys_of(self.parts().1));
                    assert(nks[2] == keys_of(self.parts().2));
                    assert(nks[3] == keys_of(self.parts().3));
                    assert(nks[4] == keys_of(self.parts().4));
                    assert(nks[5] == keys_of(self.parts().5));
                    assert(nks[6] == keys_of(self.parts().6));
                }
                lemma_intersection_advance(ks0, cur, nks, k);
            }
        }
    }

    /// Every row, in order, until the join is exhausted: one for each key
    /// that every stream holds, in increasing key order.
    #[verifier::rlimit(100)]
    pub fn rows(&mut self) -> (rows: Vec<(u64, (A, B, C, D, E, F, G))>)
        requires
            old(self).wf(),
        ensures
            final(self).wf(),
            rows@.len() == common_keys(old(self).key_seqs()).len(),
            forall|i: int| 0 <= i < rows@.len() ==> common_keys(old(self).key_seqs()).contains(#[trigger] rows@[i].0),
            forall|i: int, j: int| 0 <= i < j < rows@.len() ==> rows@[i].0 < rows@[j].0,
            forall|i: int|
                0 <= i < rows@.len() ==> {
                    &&& old(self).parts().0.contains((#[trigger] rows@[i].0, rows@[i].1.0))
                    &&& old(self).parts().1.contains((rows@[i].0, rows@[i].1.1))
                    &&& old(self).parts().2.contains((rows@[i].0, rows@[i].1.2))
                    &&& old(self).parts().3.contains((rows@[i].0, rows@[i].1.3))
                    &&& old(self).parts().4.contains((rows@[i].0, rows@[i].1.4))
                    &&& old(self).parts().5.contains((rows@[i].0, rows@[i].1.5))
                    &&& old(self).parts().6.contains((rows@[i].0, rows@[i].1.6))
                },
    {
        let ghost start = *self;
        let mut rows: Vec<(u64, (A, B, C, D, E, F, G))> = Vec::new();
        proof {
            lemma_common_keys_finite(start.key_seqs());
        }
        loop
            invariant
                self.wf(),
                start == *old(self),
                common_keys(self.key_seqs()).finite(),
                common_keys(start.key_seqs()).finite(),
                rows@.len() + common_keys(self.key_seqs()).len() == common_keys(start.key_seqs()).len(),
                forall|x: u64| common_keys(self.key_seqs()).contains(x) ==> common_keys(start.key_seqs()).contains(x),
                forall|i: int| 0 <= i < rows@.len() ==> common_keys(start.key_seqs()).contains(#[trigger] rows@[i].0),
                forall|i: int, x: u64|
                    0 <= i < rows@.len() && #[trigger] common_keys(self.key_seqs()).contains(x) ==> #[trigger] rows@[i].0 < x,
                forall|i: int, j: int| 0 <= i < j < rows@.len() ==> rows@[i].0 < rows@[j].0,
                forall|p: (u64, A)| self.parts().0.contains(p) ==> start.parts().0.contains(p),
                forall|p: (u64, B)| self.parts().1.contains(p) ==> start.parts().1.contains(p),
                forall|p: (u64, C)| self.parts().2.contains(p) ==> start.parts().2.contains(p),
                forall|p: (u64, D)| self.parts().3.contains(p) ==> start.parts().3.contains(p),
                forall|p: (u64, E)| self.parts().4.contains(p) ==> start.parts().4.contains(p),
                forall|p: (u64, F)| self.parts().5.contains(p) ==> start.parts().5.contains(p),
                forall|p: (u64, G)| self.parts().6.contains(p) ==> start.parts().6.contains(p),
                forall|i: int|
                    0 <= i < rows@.len() ==> {
                        &&& start.parts().0.contains((#[trigger] rows@[i].0, rows@[i].1.0))
                        &&& start.parts().1.contains((rows@[i].0, rows@[i].1.1))
                        &&& start.parts().2.contains((rows@[i].0, rows@[i].1.2))
                        &&& start.parts().3.contains((rows@[i].0, rows@[i].1.3))
                        &&& start.parts().4.contains((rows@[i].0, rows@[i].1.4))
                        &&& start.parts().5.contains((rows@[i].0, rows@[i].1.5))
                        &&& start.parts().6.contains((rows@[i].0, rows@[i].1.6))
                    },
            decreases common_keys(self.key_seqs()).len(),
        {
            let ghost cur = *self;
            match self.next() {
                None => {
                    proof {
                        lemma_common_keys_finite(cur.key_seqs());
                        assert(common_keys(cur.key_seqs()) =~= Set::empty());
                    }
                    return rows;
                },
                Some((k, (a, b, c, d, e, f, g))) => {
                    proof {
                        lemma_taken_through(cur.parts().0, self.parts().0, k, a);
                        lemma_taken_through(cur.parts().1, self.parts().1, k, b);
                        lemma_taken_through(cur.parts().2, self.parts().2, k, c);
                        lemma_taken_through(cur.parts().3, self.parts().3, k, d);
                        lemma_taken_through(cur.parts().4, self.parts().4, k, e);
                        lemma_taken_through(cur.parts().5, self.parts().5, k, f);
                        lemma_taken_through(cur.parts().6, self.parts().6, k, g);
                        let ks = cur.key_seqs();
                        let nks = self.key_seqs();
                        assert forall|i: int, x: u64| 0 <= i < ks.len() implies (#[trigger] nks[i].contains(x)
                            <==> ks[i].contains(x) && x > k) by {
                            assert(keys_of(self.parts().0).contains(x) <==> keys_of(cur.parts().0).contains(x) && x > k);
                            assert(keys_of(self.parts().1).contains(x) <==> keys_of(cur.parts().1).contains(x) && x > k);
                            assert(keys_of(self.parts().2).contains(x) <==> keys_of(cur.parts().2).contains(x) && x > k);
                            assert(keys_of(self.parts().3).contains(x) <==> keys_of(cur.parts().3).contains(x) && x > k);
                            assert(keys_of(self.parts().4).contains(x) <==> keys_of(cur.parts().4).contains(x) && x > k);
                            assert(keys_of(self.parts().5).contains(x) <==> keys_of(cur.parts().5).contains(x) && x > k);
                            assert(keys_of(self.parts().6).contains(x) <==> keys_of(cur.parts().6).contains(x) && x > k);
                        }
                        lemma_intersection_step(ks, nks, k);
                        lemma_common_keys_finite(nks);
                    }
                    rows.push((k, (a, b, c, d, e, f, g)));
                },
            }
        }
    }
}

impl<A, B, C, D, E, F, G, H> KVAJoin<(Stream<A>, Stream<B>, Stream<C>, Stream<D>, Stream<E>, Stream<F>, Stream<G>, Stream<H>)> {
    /// The pairs left in each stream.
    pub closed spec fn parts(&self) -> (Seq<(u64, A)>, Seq<(u64, B)>, Seq<(u64, C)>, Seq<(u64, D)>, Seq<(u64, E)>, Seq<(u64, F)>, Seq<(u64, G)>, Seq<(u64, H)>) {
        (self.streams.0@, self.streams.1@, self.streams.2@, self.streams.3@, self.streams.4@, self.streams.5@, self.streams.6@, self.streams.7@)
    }

    /// The keys left in each stream.
    pub open spec fn key_seqs(&self) -> Seq<Seq<u64>> {
        seq![keys_of(self.parts().0), keys_of(self.parts().1), keys_of(self.parts().2), keys_of(self.parts().3), keys_of(self.parts().4), keys_of(self.parts().5), keys_of(self.parts().6), keys_of(self.parts().7)]
    }

    /// Every stream is in strictly increasing key order.
    pub open spec fn wf(&self) -> bool {
        ascending(self.parts().0) && ascending(self.parts().1) && ascending(self.parts().2) && ascending(self.parts().3) && ascending(self.parts().4) && ascending(self.parts().5) && ascending(self.parts().6) && ascending(self.parts().7)
    }

    /// The join of eight streams.
    pub fn of_eight(s0: Stream<A>, s1: Stream<B>, s2: Stream<C>, s3: Stream<D>, s4: Stream<E>, s5: Stream<F>, s6: Stream<G>, s7: Stream<H>) -> (j: Self)
        requires
            ascending(s0@),
            ascending(s1@),
            ascending(s2@),
            ascending(s3@),
            ascending(s4@),
            ascending(s5@),
            ascending(s6@),
            ascending(s7@),
        ensures
            j.parts() == (s0@, s1@, s2@, s3@, s4@, s5@, s6@, s7@),
            j.wf(),
    {
        KVAJoin { streams: (s0, s1, s2, s3, s4, s5, s6, s7) }
    }

    /// The next row: the least key held by every stream, with the value of
    /// each; `None` when no key is held by all of them.
    #[verifier::rlimit(100)]
    pub fn next(&mut self) -> (r: Option<(u64, (A, B, C, D, E, F, G, H))>)
        requires
            old(self).wf(),
        ensures
            final(self).wf(),
            r is None ==> forall|x: u64| !in_all(old(self).key_seqs(), x),
            r matches Some((k, (a, b, c, d, e, f, g, h))) ==> {
                &&& least_common(old(self).key_seqs(), k)
                &&& taken_through(old(self).parts().0, final(self).parts().0, k, a)
                &&& taken_through(old(self).parts().1, final(self).parts().1, k, b)
                &&& taken_through(old(self).parts().2, final(self).parts().2, k, c)
                &&& taken_through(old(self).parts().3, final(self).parts().3, k, d)
                &&& taken_through(old(self).parts().4, final(self).parts().4, k, e)
                &&& taken_through(old(self).parts().5, final(self).parts().5, k, f)
                &&& taken_through(old(self).parts().6, final(self).parts().6, k, g)
                &&& taken_through(old(self).parts().7, final(self).parts().7, k, h)
            },
    {
        let ghost ks0 = self.key_seqs();
        let ghost p0 = self.parts().0;
        let ghost p1 = self.parts().1;
        let ghost p2 = self.parts().2;
        let ghost p3 = self.parts().3;
        let ghost p4 = self.parts().4;
        let ghost p5 = self.parts().5;
        let ghost p6 = self.parts().6;
        let ghost p7 = self.parts().7;
        let ghost mut d0: int = 0;
        let ghost mut d1: int = 0;
        let ghost mut d2: int = 0;
        let ghost mut d3: int = 0;
        let ghost mut d4: int = 0;
        let ghost mut d5: int = 0;
        let ghost mut d6: int = 0;
        let ghost mut d7: int = 0;
        assert(p0.skip(0) == p0);
        assert(p1.skip(0) == p1);
        assert(p2.skip(0) == p2);
        assert(p3.skip(0) == p3);
        assert(p4.skip(0) == p4);
        assert(p5.skip(0) == p5);
        assert(p6.skip(0) == p6);
        assert(p7.skip(0) == p7);
        loop
            invariant
                0 <= d0 <= p0.len(),
                self.parts().0 == p0.skip(d0),
                ascending(p0),
                p0 == old(self).parts().0,
                0 <= d1 <= p1.len(),
                self.parts().1 == p1.skip(d1),
                ascending(p1),
                p1 == old(self).parts().1,
                0 <= d2 <= p2.len(),
                self.parts().2 == p2.skip(d2),
                ascending(p2),
                p2 == old(self).parts().2,
                0 <= d3 <= p3.len(),
                self.parts().3 == p3.skip(d3),
                ascending(p3),
                p3 == old(self).parts().3,
                0 <= d4 <= p4.len(),
                self.parts().4 == p4.skip(d4),
                ascending(p4),
                p4 == old(self).parts().4,
                0 <= d5 <= p5.len(),
                self.parts().5 == p5.skip(d5),
                ascending(p5),
                p5 == old(self).parts().5,
                0 <= d6 <= p6.len(),
                self.parts().6 == p6.skip(d6),
                ascending(p6),
                p6 == old(self).parts().6,
                0 <= d7 <= p7.len(),
                self.parts().7 == p7.skip(d7),
                ascending(p7),
                p7 == old(self).parts().7,
                ks0 == old(self).key_seqs(),
                self.wf(),
                forall|x: u64| in_all(ks0, x) ==> in_all(self.key_seqs(), x),
            decreases self.parts().0.len() + self.parts().1.len() + self.parts().2.len() + self.parts().3.len() + self.parts().4.len() + self.parts().5.len() + self.parts().6.len() + self.parts().7.len(),
        {
            let ghost cur = self.key_seqs();
            let ghost c0 = self.parts().0;
            let ghost c1 = self.parts().1;
            let ghost c2 = self.parts().2;
            let ghost c3 = self.parts().3;
            let ghost c4 = self.parts().4;
            let ghost c5 = self.parts().5;
            let ghost c6 = self.parts().6;
            let ghost c7 = self.parts().7;
            let h0 = match self.streams.0.head_key() {
                Some(k) => k,
                None => {
                    assert forall|x: u64| !in_all(ks0, x) by {
                        if in_all(ks0, x) {
                            assert(cur[0].contains(x));
                            assert(cur[0] == keys_of(c0));
                        }
                    }
                    return None;
                },
            };
            let h1 = match self.streams.1.head_key() {
                Some(k) => k,
                None => {
                    assert forall|x: u64| !in_all(ks0, x) by {
                        if in_all(ks0, x) {
                            assert(cur[1].contains(x));
                            assert(cur[1] == keys_of(c1));
                        }
                    }
                    return None;
                },
            };
            let h2 = match self.streams.2.head_key() {
                Some(k) => k,
                None => {
                    assert forall|x: u64| !in_all(ks0, x) by {
                        if in_all(ks0, x) {
                            assert(cur[2].contains(x));
                            assert(cur[2] == keys_of(c2));
                        }
                    }
                    return None;
                },
            };
            let h3 = match self.streams.3.head_key() {
                Some(k) => k,
                None => {
                    assert forall|x: u64| !in_all(ks0, x) by {
                        if in_all(ks0, x) {
                            assert(cur[3].contains(x));
                            assert(cur[3] == keys_of(c3));
                        }
                    }
                    return None;
                },
            };
            let h4 = match self.streams.4.head_key() {
                Some(k) => k,
                None => {
                    assert forall|x: u64| !in_all(ks0, x) by {
                        if in_all(ks0, x) {
                            assert(cur[4].contains(x));
                            assert(cur[4] == keys_of(c4));
                        }
                    }
                    return None;
                },
            };
            let h5 = match self.streams.5.head_key() {
                Some(k) => k,
                None => {
                    assert forall|x: u64| !in_all(ks0, x) by {
                        if in_all(ks0, x) {
                            assert(cur[5].contains(x));
                            assert(cur[5] == keys_of(c5));
                        }
                    }
                    return None;
                },
            };
            let h6 = match self.streams.6.head_key() {
                Some(k) => k,
                None => {
                    assert forall|x: u64| !in_all(ks0, x) by {
                        if in_all(ks0, x) {
                            assert(cur[6].contains(x));
                            assert(cur[6] == keys_of(c6));
                        }
                    }
                    return None;
                },
            };
            let h7 = match self.streams.7.head_key() {
                Some(k) => k,
                None => {
                    assert forall|x: u64| !in_all(ks0, x) by {
                        if in_all(ks0, x) {
                            assert(cur[7].contains(x));
                            assert(cur[7] == keys_of(c7));
                        }
                    }
                    return None;
                },
            };
            proof {
                lemma_head(c0);
                lemma_head(c1);
                lemma_head(c2);
                lemma_head(c3);
                lemma_head(c4);
                lemma_head(c5);
                lemma_head(c6);
                lemma_head(c7);
            }
            let k = if h0 < h1 { h1 } else { h0 };
            let k = if k < h2 { h2 } else { k };
            let k = if k < h3 { h3 } else { k };
            let k = if k < h4 { h4 } else { k };
            let k = if k < h5 { h5 } else { k };
            let k = if k < h6 { h6 } else { k };
            let k = if k < h7 { h7 } else { k };
            if h0 == k && h1 == k && h2 == k && h3 == k && h4 == k && h5 == k && h6 == k && h7 == k {
                let (_, a) = self.streams.0.pull().unwrap();
                let (_, b) = self.streams.1.pull().unwrap();
                let (_, c) = self.streams.2.pull().unwrap();
                let (_, d) = self.streams.3.pull().unwrap();
                let (_, e) = self.streams.4.pull().unwrap();
                let (_, f) = self.streams.5.pull().unwrap();
                let (_, g) = self.streams.6.pull().unwrap();
                let (_, h) = self.streams.7.pull().unwrap();
                proof {
                    assert(p0[d0] == (k, a));
                    assert(p0.skip(d0).drop_first() == p0.skip(d0 + 1));
                    lemma_keys_of(p0);
                    assert(keys_of(p0)[d0] == k);
                    assert(p1[d1] == (k, b));
                    assert(p1.skip(d1).drop_first() == p1.skip(d1 + 1));
                    lemma_keys_of(p1);
                    assert(keys_of(p1)[d1] == k);
                    assert(p2[d2] == (k, c));
                    assert(p2.skip(d2).drop_first() == p2.skip(d2 + 1));
                    lemma_keys_of(p2);
                    assert(keys_of(p2)[d2] == k);
                    assert(p3[d3] == (k, d));
                    assert(p3.skip(d3).drop_first() == p3.skip(d3 + 1));
                    lemma_keys_of(p3);
                    assert(keys_of(p3)[d3] == k);
                    assert(p4[d4] == (k, e));
                    assert(p4.skip(d4).drop_first() == p4.skip(d4 + 1));
                    lemma_keys_of(p4);
                    assert(keys_of(p4)[d4] == k);
                    assert(p5[d5] == (k, f));
                    assert(p5.skip(d5).drop_first() == p5.skip(d5 + 1));
                    lemma_keys_of(p5);
                    assert(keys_of(p5)[d5] == k);
                    assert(p6[d6] == (k, g));
                    assert(p6.skip(d6).drop_first() == p6.skip(d6 + 1));
                    lemma_keys_of(p6);
                    assert(keys_of(p6)[d6] == k);
                    assert(p7[d7] == (k, h));
                    assert(p7.skip(d7).drop_first() == p7.skip(d7 + 1));
                    lemma_keys_of(p7);
                    assert(keys_of(p7)[d7] == k);
                    assert(in_all(ks0, k));
                    lemma_keys_of(c0);
                    lemma_intersection_found(ks0, cur, k);
                }
                return Some((k, (a, b, c, d, e, f, g, h)));
            }
            self.streams.0.skip_below(k);
            self.streams.1.skip_below(k);
            self.streams.2.skip_below(k);
            self.streams.3.skip_below(k);
            self.streams.4.skip_below(k);
            self.streams.5.skip_below(k);
            self.streams.6.skip_below(k);
            self.streams.7.skip_below(k);
            proof {
                assert(p0.skip(d0).drop_first() == p0.skip(d0 + 1));
                assert(p1.skip(d1).drop_first() == p1.skip(d1 + 1));
                assert(p2.skip(d2).drop_first() == p2.skip(d2 + 1));
                assert(p3.skip(d3).drop_first() == p3.skip(d3 + 1));
                assert(p4.skip(d4).drop_first() == p4.skip(d4 + 1));
                assert(p5.skip(d5).drop_first() == p5.skip(d5 + 1));
                assert(p6.skip(d6).drop_first() == p6.skip(d6 + 1));
                assert(p7.skip(d7).drop_first() == p7.skip(d7 + 1));
                d0 = if h0 < k { d0 + 1 } else { d0 };
                d1 = if h1 < k { d1 + 1 } else { d1 };
                d2 = if h2 < k { d2 + 1 } else { d2 };
                d3 = if h3 < k { d3 + 1 } else { d3 };
                d4 = if h4 < k { d4 + 1 } else { d4 };
                d5 = if h5 < k { d5 + 1 } else { d5 };
                d6 = if h6 < k { d6 + 1 } else { d6 };
                d7 = if h7 < k { d7 + 1 } else { d7 };
            }
            proof {
                let nks = self.key_seqs();
                lemma_keys_of(c0);
                lemma_keys_of(c1);
                lemma_keys_of(c2);
                lemma_keys_of(c3);
                lemma_keys_of(c4);
                lemma_keys_of(c5);
                lemma_keys_of(c6);
                lemma_keys_of(c7);
                assert(all_increasing(cur));
                assert(cur[0][0] == k || cur[1][0] == k || cur[2][0] == k || cur[3][0] == k || cur[4][0] == k || cur[5][0] == k || cur[6][0] == k || cur[7][0] == k);
                assert forall|i: int| 0 <= i < cur.len() implies #[trigger] nks[i] == (if cur[i][0] < k {
                    cur[i].drop_first()
                } else {
                    cur[i]
                }) by {
                    assert(nks[0] == keys_of(self.parts().0));
                    assert(nks[1] == keys_of(self.parts().1));
                    assert(nks[2] == keys_of(self.parts().2));
                    assert(nks[3] == keys_of(self.parts().3));
                    assert(nks[4] == keys_of(self.parts().4));
                    assert(nks[5] == keys_of(self.parts().5));
                    assert(nks[6] == keys_of(self.parts().6));
                    assert(nks[7] == keys_of(self.parts().7));
                }
                lemma_intersection_advance(ks0, cur, nks, k);
            }
        }
    }

    /// Every row, in order, until the join is exhausted: one for each key
    /// that every stream holds, in increasing key order.
    #[verifier::rlimit(100)]
    pub fn rows(&mut self) -> (rows: Vec<(u64, (A, B, C, D, E, F, G, H))>)
        requires
            old(self).wf(),
        ensures
            final(self).wf(),
            rows@.len() == common_keys(old(self).key_seqs()).len(),
            forall|i: int| 0 <= i < rows@.len() ==> common_keys(old(self).key_seqs()).contains(#[trigger] rows@[i].0),
            forall|i: int, j: int| 0 <= i < j < rows@.len() ==> rows@[i].0 < rows@[j].0,
            forall|i: int|
                0 <= i < rows@.len() ==> {
                    &&& old(self).parts().0.contains((#[trigger] rows@[i].0, rows@[i].1.0))
                    &&& old(self).parts().1.contains((rows@[i].0, rows@[i].1.1))
                    &&& old(self).parts().2.contains((rows@[i].0, rows@[i].1.2))
                    &&& old(self).parts().3.contains((rows@[i].0, rows@[i].1.3))
                    &&& old(self).parts().4.contains((rows@[i].0, rows@[i].1.4))
                    &&& old(self).parts().5.contains((rows@[i].0, rows@[i].1.5))
                    &&& old(self).parts().6.contains((rows@[i].0, rows@[i].1.6))
                    &&& old(self).parts().7.contains((rows@[i].0, rows@[i].1.7))
                },
    {
        let ghost start = *self;
        let mut rows: Vec<(u64, (A, B, C, D, E, F, G, H))> = Vec::new();
        proof {
            lemma_common_keys_finite(start.key_seqs());
        }
        loop
            invariant
                self.wf(),
                start == *old(self),
                common_keys(self.key_seqs()).finite(),
                common_keys(start.key_seqs()).finite(),
                rows@.len() + common_keys(self.key_seqs()).len() == common_keys(start.key_seqs()).len(),
                forall|x: u64| common_keys(self.key_seqs()).contains(x) ==> common_keys(start.key_seqs()).contains(x),
                forall|i: int| 0 <= i < rows@.len() ==> common_keys(start.key_seqs()).contains(#[trigger] rows@[i].0),
                forall|i: int, x: u64|
                    0 <= i < rows@.len() && #[trigger] common_keys(self.key_seqs()).contains(x) ==> #[trigger] rows@[i].0 < x,
                forall|i: int, j: int| 0 <= i < j < rows@.len() ==> rows@[i].0 < rows@[j].0,
                forall|p: (u64, A)| self.parts().0.contains(p) ==> start.parts().0.contains(p),
                forall|p: (u64, B)| self.parts().1.contains(p) ==> start.parts().1.contains(p),
                forall|p: (u64, C)| self.parts().2.contains(p) ==> start.parts().2.contains(p),
                forall|p: (u64, D)| self.parts().3.contains(p) ==> start.parts().3.contains(p),
                forall|p: (u64, E)| self.parts().4.contains(p) ==> start.parts().4.contains(p),
                forall|p: (u64, F)| self.parts().5.contains(p) ==> start.parts().5.contains(p),
                forall|p: (u64, G)| self.parts().6.contains(p) ==> start.parts().6.contains(p),
                forall|p: (u64, H)| self.parts().7.contains(p) ==> start.parts().7.contains(p),
                forall|i: int|
                    0 <= i < rows@.len() ==> {
                        &&& start.parts().0.contains((#[trigger] rows@[i].0, rows@[i].1.0))
                        &&& start.parts().1.contains((rows@[i].0, rows@[i].1.1))
                        &&& start.parts().2.contains((rows@[i].0, rows@[i].1.2))
                        &&& start.parts().3.contains((rows@[i].0, rows@[i].1.3))
                        &&& start.parts().4.contains((rows@[i].0, rows@[i].1.4))
                        &&& start.parts().5.contains((rows@[i].0, rows@[i].1.5))
                        &&& start.parts().6.contains((rows@[i].0, rows@[i].1.6))
                        &&& start.parts().7.contains((rows@[i].0, rows@[i].1.7))
                    },
            decreases common_keys(self.key_seqs()).len(),
        {
            let ghost cur = *self;
            match self.next() {
                None => {
                    proof {
                        lemma_common_keys_finite(cur.key_seqs());
                        assert(common_keys(cur.key_seqs()) =~= Set::empty());
                    }
                    return rows;
                },
                Some((k, (a, b, c, d, e, f, g, h))) => {
                    proof {
                        lemma_taken_through(cur.parts().0, self.parts().0, k, a);
                        lemma_taken_through(cur.parts().1, self.parts().1, k, b);
                        lemma_taken_through(cur.parts().2, self.parts().2, k, c);
                        lemma_taken_through(cur.parts().3, self.parts().3, k, d);
                        lemma_taken_through(cur.parts().4, self.parts().4, k, e);
                        lemma_taken_through(cur.parts().5, self.parts().5, k, f);
                        lemma_taken_through(cur.parts().6, self.parts().6, k, g);
                        lemma_taken_through(cur.parts().7, self.parts().7, k, h);
                        let ks = cur.key_seqs();
                        let nks = self.key_seqs();
                        assert forall|i: int, x: u64| 0 <= i < ks.len() implies (#[trigger] nks[i].contains(x)
                            <==> ks[i].contains(x) && x > k) by {
                            assert(keys_of(self.parts().0).contains(x) <==> keys_of(cur.parts().0).contains(x) && x > k);
                            assert(keys_of(self.parts().1).contains(x) <==> keys_of(cur.parts().1).contains(x) && x > k);
                            assert(keys_of(self.parts().2).contains(x) <==> keys_of(cur.parts().2).contains(x) && x > k);
                            assert(keys_of(self.parts().3).contains(x) <==> keys_of(cur.parts().3).contains(x) && x > k);
                            assert(keys_of(self.parts().4).contains(x) <==> keys_of(cur.parts().4).contains(x) && x > k);
                            assert(keys_of(self.parts().5).contains(x) <==> keys_of(cur.parts().5).contains(x) && x > k);
                            assert(keys_of(self.parts().6).contains(x) <==> keys_of(cur.parts().6).contains(x) && x > k);
                            assert(keys_of(self.parts().7).contains(x) <==> keys_of(cur.parts().7).contains(x) && x > k);
                        }
                        lemma_intersection_step(ks, nks, k);
                        lemma_common_keys_finite(nks);
                    }
                    rows.push((k, (a, b, c, d, e, f, g, h)));
                },
            }
        }
    }
}

impl<A, B, C, D, E, F, G, H, J> KVAJoin<(Stream<A>, Stream<B>, Stream<C>, Stream<D>, Stream<E>, Stream<F>, Stream<G>, Stream<H>, Stream<J>)> {
    /// The pairs left in each stream.
    pub closed spec fn parts(&self) -> (Seq<(u64, A)>, Seq<(u64, B)>, Seq<(u64, C)>, Seq<(u64, D)>, Seq<(u64, E)>, Seq<(u64, F)>, Seq<(u64, G)>, Seq<(u64, H)>, Seq<(u64, J)>) {
        (self.streams.0@, self.streams.1@, self.streams.2@, self.streams.3@, self.streams.4@, self.streams.5@, self.streams.6@, self.streams.7@, self.streams.8@)
    }

    /// The keys left in each stream.
    pub open spec fn key_seqs(&self) -> Seq<Seq<u64>> {
        seq![keys_of(self.parts().0), keys_of(self.parts().1), keys_of(self.parts().2), keys_of(self.parts().3), keys_of(self.parts().4), keys_of(self.parts().5), keys_of(self.parts().6), keys_of(self.parts().7), keys_of(self.parts().8)]
    }

    /// Every stream is in strictly increasing key order.
    pub open spec fn wf(&self) -> bool {
        ascending(self.parts().0) && ascending(self.parts().1) && ascending(self.parts().2) && ascending(self.parts().3) && ascending(self.parts().4) && ascending(self.parts().5) && ascending(self.parts().6) && ascending(self.parts().7) && ascending(self.parts().8)
    }

    /// The join of nine streams.
    pub fn of_nine(s0: Stream<A>, s1: Stream<B>, s2: Stream<C>, s3: Stream<D>, s4: Stream<E>, s5: Stream<F>, s6: Stream<G>, s7: Stream<H>, s8: Stream<J>) -> (j: Self)
        requires
            ascending(s0@),
            ascending(s1@),
            ascending(s2@),
            ascending(s3@),
            ascending(s4@),
            ascending(s5@),
            ascending(s6@),
            ascending(s7@),
            ascending(s8@),
        ensures
            j.parts() == (s0@, s1@, s2@, s3@, s4@, s5@, s6@, s7@, s8@),
            j.wf(),
    {
        KVAJoin { streams: (s0, s1, s2, s3, s4, s5, s6, s7, s8) }
    }

    /// The next row: the least key held by every stream, with the value of
    /// each; `None` when no key is held by all of them.
    #[verifier::rlimit(100)]
    pub fn next(&mut self) -> (r: Option<(u64, (A, B, C, D, E, F, G, H, J))>)
        requires
            old(self).wf(),
        ensures
            final(self).wf(),
            r is None ==> forall|x: u64| !in_all(old(self).key_seqs(), x),
            r matches Some((k, (a, b, c, d, e, f, g, h, j))) ==> {
                &&& least_common(old(self).key_seqs(), k)
                &&& taken_through(old(self).parts().0, final(self).parts().0, k, a)
                &&& taken_through(old(self).parts().1, final(self).parts().1, k, b)
                &&& taken_through(old(self).parts().2, final(self).parts().2, k, c)
                &&& taken_through(old(self).parts().3, final(self).parts().3, k, d)
                &&& taken_through(old(self).parts().4, final(self).parts().4, k, e)
                &&& taken_through(old(self).parts().5, final(self).parts().5, k, f)
                &&& taken_through(old(self).parts().6, final(self).parts().6, k, g)
                &&& taken_through(old(self).parts().7, final(self).parts().7, k, h)
                &&& taken_through(old(self).parts().8, final(self).parts().8, k, j)
            },
    {
        let ghost ks0 = self.key_seqs();
        let ghost p0 = self.parts().0;
        let ghost p1 = self.parts().1;
        let ghost p2 = self.parts().2;
        let ghost p3 = self.parts().3;
        let ghost p4 = self.parts().4;
        let ghost p5 = self.parts().5;
        let ghost p6 = self.parts().6;
        let ghost p7 = self.parts().7;
        let ghost p8 = self.parts().8;
        let ghost mut d0: int = 0;
        let ghost mut d1: int = 0;
        let ghost mut d2: int = 0;
        let ghost mut d3: int = 0;
        let ghost mut d4: int = 0;
        let ghost mut d5: int = 0;
        let ghost mut d6: int = 0;
        let ghost mut d7: int = 0;
        let ghost mut d8: int = 0;
        assert(p0.skip(0) == p0);
        assert(p1.skip(0) == p1);
        assert(p2.skip(0) == p2);
        assert(p3.skip(0) == p3);
        assert(p4.skip(0) == p4);
        assert(p5.skip(0) == p5);
        assert(p6.skip(0) == p6);
        assert(p7.skip(0) == p7);
        assert(p8.skip(0) == p8);
        loop
            invariant
                0 <= d0 <= p0.len(),
                self.parts().0 == p0.skip(d0),
                ascending(p0),
                p0 == old(self).parts().0,
                0 <= d1 <= p1.len(),
                self.parts().1 == p1.skip(d1),
                ascending(p1),
                p1 == old(self).parts().1,
                0 <= d2 <= p2.len(),
                self.parts().2 == p2.skip(d2),
                ascending(p2),
                p2 == old(self).parts().2,
                0 <= d3 <= p3.len(),
                self.parts().3 == p3.skip(d3),
                ascending(p3),
                p3 == old(self).parts().3,
                0 <= d4 <= p4.len(),
                self.parts().4 == p4.skip(d4),
                ascending(p4),
                p4 == old(self).parts().4,
                0 <= d5 <= p5.len(),
                self.parts().5 == p5.skip(d5),
                ascending(p5),
                p5 == old(self).parts().5,
                0 <= d6 <= p6.len(),
                self.parts().6 == p6.skip(d6),
                ascending(p6),
                p6 == old(self).parts().6,
                0 <= d7 <= p7.len(),
                self.parts().7 == p7.skip(d7),
                ascending(p7),
                p7 == old(self).parts().7,
                0 <= d8 <= p8.len(),
                self.parts().8 == p8.skip(d8),
                ascending(p8),
                p8 == old(self).parts().8,
                ks0 == old(self).key_seqs(),
                self.wf(),
                forall|x: u64| in_all(ks0, x) ==> in_all(self.key_seqs(), x),
            decreases self.parts().0.len() + self.parts().1.len() + self.parts().2.len() + self.parts().3.len() + self.parts().4.len() + self.parts().5.len() + self.parts().6.len() + self.parts().7.len() + self.parts().8.len(),
        {
            let ghost cur = self.key_seqs();
            let ghost c0 = self.parts().0;
            let ghost c1 = self.parts().1;
            let ghost c2 = self.parts().2;
            let ghost c3 = self.parts().3;
            let ghost c4 = self.parts().4;
            let ghost c5 = self.parts().5;
            let ghost c6 = self.parts().6;
            let ghost c7 = self.parts().7;
            let ghost c8 = self.parts().8;
            let h0 = match self.streams.0.head_key() {
                Some(k) => k,
                None => {
                    assert forall|x: u64| !in_all(ks0, x) by {
                        if in_all(ks0, x) {
                            assert(cur[0].contains(x));
                            assert(cur[0] == keys_of(c0));
                        }
                    }
                    return None;
                },
            };
            let h1 = match self.streams.1.head_key() {
                Some(k) => k,
                None => {
                    assert forall|x: u64| !in_all(ks0, x) by {
                        if in_all(ks0, x) {
                            assert(cur[1].contains(x));
                            assert(cur[1] == keys_of(c1));
                        }
                    }
                    return None;
                },
            };
            let h2 = match self.streams.2.head_key() {
                Some(k) => k,
                None => {
                    assert forall|x: u64| !in_all(ks0, x) by {
                        if in_all(ks0, x) {
                            assert(cur[2].contains(x));
                            assert(cur[2] == keys_of(c2));
                        }
                    }
                    return None;
                },
            };
            let h3 = match self.streams.3.head_key() {
                Some(k) => k,
                None => {
                    assert forall|x: u64| !in_all(ks0, x) by {
                        if in_all(ks0, x) {
                            assert(cur[3].contains(x));
                            assert(cur[3] == keys_of(c3));
                        }
                    }
                    return None;
                },
            };
            let h4 = match self.streams.4.head_key() {
                Some(k) => k,
                None => {
                    assert forall|x: u64| !in_all(ks0, x) by {
                        if in_all(ks0, x) {
                            assert(cur[4].contains(x));
                            assert(cur[4] == keys_of(c4));
                        }
                    }
                    return None;
                },
            };
            let h5 = match self.streams.5.head_key() {
                Some(k) => k,
                None => {
                    assert forall|x: u64| !in_all(ks0, x) by {
                        if in_all(ks0, x) {
                            assert(cur[5].contains(x));
                            assert(cur[5] == keys_of(c5));
                        }
                    }
                    return None;
                },
            };
            let h6 = match self.streams.6.head_key() {
                Some(k) => k,
                None => {
                    assert forall|x: u64| !in_all(ks0, x) by {
                        if in_all(ks0, x) {
                            assert(cur[6].contains(x));
                            assert(cur[6] == keys_of(c6));
                        }
                    }
                    return None;
                },
            };
            let h7 = match self.streams.7.head_key() {
                Some(k) => k,
                None => {
                    assert forall|x: u64| !in_all(ks0, x) by {
                        if in_all(ks0, x) {
                            assert(cur[7].contains(x));
                            assert(cur[7] == keys_of(c7));
                        }
                    }
                    return None;
                },
            };
            let h8 = match self.streams.8.head_key() {
                Some(k) => k,
                None => {
                    assert forall|x: u64| !in_all(ks0, x) by {
                        if in_all(ks0, x) {
                            assert(cur[8].contains(x));
                            assert(cur[8] == keys_of(c8));
                        }
                    }
                    return None;
                },
            };
            proof {
                lemma_head(c0);
                lemma_head(c1);
                lemma_head(c2);
                lemma_head(c3);
                lemma_head(c4);
                lemma_head(c5);
                lemma_head(c6);
                lemma_head(c7);
                lemma_head(c8);
            }
            let k = if h0 < h1 { h1 } else { h0 };
            let k = if k < h2 { h2 } else { k };
            let k = if k < h3 { h3 } else { k };
            let k = if k < h4 { h4 } else { k };
            let k = if k < h5 { h5 } else { k };
            let k = if k < h6 { h6 } else { k };
            let k = if k < h7 { h7 } else { k };
            let k = if k < h8 { h8 } else { k };
            if h0 == k && h1 == k && h2 == k && h3 == k && h4 == k && h5 == k && h6 == k && h7 == k && h8 == k {
                let (_, a) = self.streams.0.pull().unwrap();
                let (_, b) = self.streams.1.pull().unwrap();
                let (_, c) = self.streams.2.pull().unwrap();
                let (_, d) = self.streams.3.pull().unwrap();
                let (_, e) = self.streams.4.pull().unwrap();
                let (_, f) = self.streams.5.pull().unwrap();
                let (_, g) = self.streams.6.pull().unwrap();
                let (_, h) = self.streams.7.pull().unwrap();
                let (_, j) = self.streams.8.pull().unwrap();
                proof {
                    assert(p0[d0] == (k, a));
                    assert(p0.skip(d0).drop_first() == p0.skip(d0 + 1));
                    lemma_keys_of(p0);
                    assert(keys_of(p0)[d0] == k);
                    assert(p1[d1] == (k, b));
                    assert(p1.skip(d1).drop_first() == p1.skip(d1 + 1));
                    lemma_keys_of(p1);
                    assert(keys_of(p1)[d1] == k);
                    assert(p2[d2] == (k, c));
                    assert(p2.skip(d2).drop_first() == p2.skip(d2 + 1));
                    lemma_keys_of(p2);
                    assert(keys_of(p2)[d2] == k);
                    assert(p3[d3] == (k, d));
                    assert(p3.skip(d3).drop_first() == p3.skip(d3 + 1));
                    lemma_keys_of(p3);
                    assert(keys_of(p3)[d3] == k);
                    assert(p4[d4] == (k, e));
                    assert(p4.skip(d4).drop_first() == p4.skip(d4 + 1));
                    lemma_keys_of(p4);
                    assert(keys_of(p4)[d4] == k);
                    assert(p5[d5] == (k, f));
                    assert(p5.skip(d5).drop_first() == p5.skip(d5 + 1));
                    lemma_keys_of(p5);
                    assert(keys_of(p5)[d5] == k);
                    assert(p6[d6] == (k, g));
                    assert(p6.skip(d6).drop_first() == p6.skip(d6 + 1));
                    lemma_keys_of(p6);
                    assert(keys_of(p6)[d6] == k);
                    assert(p7[d7] == (k, h));
                    assert(p7.skip(d7).drop_first() == p7.skip(d7 + 1));
                    lemma_keys_of(p7);
                    assert(keys_of(p7)[d7] == k);
                    assert(p8[d8] == (k, j));
                    assert(p8.skip(d8).drop_first() == p8.skip(d8 + 1));
                    lemma_keys_of(p8);
                    assert(keys_of(p8)[d8] == k);
                    assert(in_all(ks0, k));
                    lemma_keys_of(c0);
                    lemma_intersection_found(ks0, cur, k);
                }
                return Some((k, (a, b, c, d, e, f, g, h, j)));
            }
            self.streams.0.skip_below(k);
            self.streams.1.skip_below(k);
            self.streams.2.skip_below(k);
            self.streams.3.skip_below(k);
            self.streams.4.skip_below(k);
            self.streams.5.skip_below(k);
            self.streams.6.skip_below(k);
            self.streams.7.skip_below(k);
            self.streams.8.skip_below(k);
            proof {
                assert(p0.skip(d0).drop_first() == p0.skip(d0 + 1));
                assert(p1.skip(d1).drop_first() == p1.skip(d1 + 1));
                assert(p2.skip(d2).drop_first() == p2.skip(d2 + 1));
                assert(p3.skip(d3).drop_first() == p3.skip(d3 + 1));
                assert(p4.skip(d4).drop_first() == p4.skip(d4 + 1));
                assert(p5.skip(d5).drop_first() == p5.skip(d5 + 1));
                assert(p6.skip(d6).drop_first() == p6.skip(d6 + 1));
                assert(p7.skip(d7).drop_first() == p7.skip(d7 + 1));
                assert(p8.skip(d8).drop_first() == p8.skip(d8 + 1));
                d0 = if h0 < k { d0 + 1 } else { d0 };
                d1 = if h1 < k { d1 + 1 } else { d1 };
                d2 = if h2 < k { d2 + 1 } else { d2 };
                d3 = if h3 < k { d3 + 1 } else { d3 };
                d4 = if h4 < k { d4 + 1 } else { d4 };
                d5 = if h5 < k { d5 + 1 } else { d5 };
                d6 = if h6 < k { d6 + 1 } else { d6 };
                d7 = if h7 < k { d7 + 1 } else { d7 };
                d8 = if h8 < k { d8 + 1 } else { d8 };
            }
            proof {
                let nks = self.key_seqs();
                lemma_keys_of(c0);
                lemma_keys_of(c1);
                lemma_keys_of(c2);
                lemma_keys_of(c3);
                lemma_keys_of(c4);
                lemma_keys_of(c5);
                lemma_keys_of(c6);
                lemma_keys_of(c7);
                lemma_keys_of(c8);
                assert(all_increasing(cur));
                assert(cur[0][0] == k || cur[1][0] == k || cur[2][0] == k || cur[3][0] == k || cur[4][0] == k || cur[5][0] == k || cur[6][0] == k || cur[7][0] == k || cur[8][0] == k);
                assert forall|i: int| 0 <= i < cur.len() implies #[trigger] nks[i] == (if cur[i][0] < k {
                    cur[i].drop_first()
                } else {
                    cur[i]
                }) by {
                    assert(nks[0] == keys_of(self.parts().0));
                    assert(nks[1] == keys_of(self.parts().1));
                    assert(nks[2] == keys_of(self.parts().2));
                    assert(nks[3] == keys_of(self.parts().3));
                    assert(nks[4] == keys_of(self.parts().4));
                    assert(nks[5] == keys_of(self.parts().5));
                    assert(nks[6] == keys_of(self.parts().6));
                    assert(nks[7] == keys_of(self.parts().7));
                    assert(nks[8] == keys_of(self.parts().8));
                }
                lemma_intersection_advance(ks0, cur, nks, k);
            }
        }
    }

    /// Every row, in order, until the join is exhausted: one for each key
    /// that every stream holds, in increasing key order.
    #[verifier::rlimit(100)]
    pub fn rows(&mut self) -> (rows: Vec<(u64, (A, B, C, D, E, F, G, H, J))>)
        requires
            old(self).wf(),
        ensures
            final(self).wf(),
            rows@.len() == common_keys(old(self).key_seqs()).len(),
            forall|i: int| 0 <= i < rows@.len() ==> common_keys(old(self).key_seqs()).contains(#[trigger] rows@[i].0),
            forall|i: int, j: int| 0 <= i < j < rows@.len() ==> rows@[i].0 < rows@[j].0,
            forall|i: int|
                0 <= i < rows@.len() ==> {
                    &&& old(self).parts().0.contains((#[trigger] rows@[i].0, rows@[i].1.0))
                    &&& old(self).parts().1.contains((rows@[i].0, rows@[i].1.1))
                    &&& old(self).parts().2.contains((rows@[i].0, rows@[i].1.2))
                    &&& old(self).parts().3.contains((rows@[i].0, rows@[i].1.3))
                    &&& old(self).parts().4.contains((rows@[i].0, rows@[i].1.4))
                    &&& old(self).parts().5.contains((rows@[i].0, rows@[i].1.5))
                    &&& old(self).parts().6.contains((rows@[i].0, rows@[i].1.6))
                    &&& old(self).parts().7.contains((rows@[i].0, rows@[i].1.7))
                    &&& old(self).parts().8.contains((rows@[i].0, rows@[i].1.8))
                },
    {
        let ghost start = *self;
        let mut rows: Vec<(u64, (A, B, C, D, E, F, G, H, J))> = Vec::new();
        proof {
            lemma_common_keys_finite(start.key_seqs());
        }
        loop
            invariant
                self.wf(),
                start == *old(self),
                common_keys(self.key_seqs()).finite(),
                common_keys(start.key_seqs()).finite(),
                rows@.len() + common_keys(self.key_seqs()).len() == common_keys(start.key_seqs()).len(),
                forall|x: u64| common_keys(self.key_seqs()).contains(x) ==> common_keys(start.key_seqs()).contains(x),
                forall|i: int| 0 <= i < rows@.len() ==> common_keys(start.key_seqs()).contains(#[trigger] rows@[i].0),
                forall|i: int, x: u64|
                    0 <= i < rows@.len() && #[trigger] common_keys(self.key_seqs()).contains(x) ==> #[trigger] rows@[i].0 < x,
                forall|i: int, j: int| 0 <= i < j < rows@.len() ==> rows@[i].0 < rows@[j].0,
                forall|p: (u64, A)| self.parts().0.contains(p) ==> start.parts().0.contains(p),
                forall|p: (u64, B)| self.parts().1.contains(p) ==> start.parts().1.contains(p),
                forall|p: (u64, C)| self.parts().2.contains(p) ==> start.parts().2.contains(p),
                forall|p: (u64, D)| self.parts().3.contains(p) ==> start.parts().3.contains(p),
                forall|p: (u64, E)| self.parts().4.contains(p) ==> start.parts().4.contains(p),
                forall|p: (u64, F)| self.parts().5.contains(p) ==> start.parts().5.contains(p),
                forall|p: (u64, G)| self.parts().6.contains(p) ==> start.parts().6.contains(p),
                forall|p: (u64, H)| self.parts().7.contains(p) ==> start.parts().7.contains(p),
                forall|p: (u64, J)| self.parts().8.contains(p) ==> start.parts().8.contains(p),
                forall|i: int|
                    0 <= i < rows@.len() ==> {
                        &&& start.parts().0.contains((#[trigger] rows@[i].0, rows@[i].1.0))
                        &&& start.parts().1.contains((rows@[i].0, rows@[i].1.1))
                        &&& start.parts().2.contains((rows@[i].0, rows@[i].1.2))
                        &&& start.parts().3.contains((rows@[i].0, rows@[i].1.3))
                        &&& start.parts().4.contains((rows@[i].0, rows@[i].1.4))
                        &&& start.parts().5.contains((rows@[i].0, rows@[i].1.5))
                        &&& start.parts().6.contains((rows@[i].0, rows@[i].1.6))
                        &&& start.parts().7.contains((rows@[i].0, rows@[i].1.7))
                        &&& start.parts().8.contains((rows@[i].0, rows@[i].1.8))
                    },
            decreases common_keys(self.key_seqs()).len(),
        {
            let ghost cur = *self;
            match self.next() {
                None => {
                    proof {
                        lemma_common_keys_finite(cur.key_seqs());
                        assert(common_keys(cur.key_seqs()) =~= Set::empty());
                    }
                    return rows;
                },
                Some((k, (a, b, c, d, e, f, g, h, j))) => {
                    proof {
                        lemma_taken_through(cur.parts().0, self.parts().0, k, a);
                        lemma_taken_through(cur.parts().1, self.parts().1, k, b);
                        lemma_taken_through(cur.parts().2, self.parts().2, k, c);
                        lemma_taken_through(cur.parts().3, self.parts().3, k, d);
                        lemma_taken_through(cur.parts().4, self.parts().4, k, e);
                        lemma_taken_through(cur.parts().5, self.parts().5, k, f);
                        lemma_taken_through(cur.parts().6, self.parts().6, k, g);
                        lemma_taken_through(cur.parts().7, self.parts().7, k, h);
                        lemma_taken_through(cur.parts().8, self.parts().8, k, j);
                        let ks = cur.key_seqs();
                        let nks = self.key_seqs();
                        assert forall|i: int, x: u64| 0 <= i < ks.len() implies (#[trigger] nks[i].contains(x)
                            <==> ks[i].contains(x) && x > k) by {
                            assert(keys_of(self.parts().0).contains(x) <==> keys_of(cur.parts().0).contains(x) && x > k);
                            assert(keys_of(self.parts().1).contains(x) <==> keys_of(cur.parts().1).contains(x) && x > k);
                            assert(keys_of(self.parts().2).contains(x) <==> keys_of(cur.parts().2).contains(x) && x > k);
                            assert(keys_of(self.parts().3).contains(x) <==> keys_of(cur.parts().3).contains(x) && x > k);
                            assert(keys_of(self.parts().4).contains(x) <==> keys_of(cur.parts().4).contains(x) && x > k);
                            assert(keys_of(self.parts().5).contains(x) <==> keys_of(cur.parts().5).contains(x) && x > k);
                            assert(keys_of(self.parts().6).contains(x) <==> keys_of(cur.parts().6).contains(x) && x > k);
                            assert(keys_of(self.parts().7).contains(x) <==> keys_of(cur.parts().7).contains(x) && x > k);
                            assert(keys_of(self.parts().8).contains(x) <==> keys_of(cur.parts().8).contains(x) && x > k);
                        }
                        lemma_intersection_step(ks, nks, k);
                        lemma_common_keys_finite(nks);
                    }
                    rows.push((k, (a, b, c, d, e, f, g, h, j)));
                },
            }
        }
    }
}

impl<A, B, C, D, E, F, G, H, J, L> KVAJoin<(Stream<A>, Stream<B>, Stream<C>, Stream<D>, Stream<E>, Stream<F>, Stream<G>, Stream<H>, Stream<J>, Stream<L>)> {
    /// The pairs left in each stream.
    pub closed spec fn parts(&self) -> (Seq<(u64, A)>, Seq<(u64, B)>, Seq<(u64, C)>, Seq<(u64, D)>, Seq<(u64, E)>, Seq<(u64, F)>, Seq<(u64, G)>, Seq<(u64, H)>, Seq<(u64, J)>, Seq<(u64, L)>) {
        (self.streams.0@, self.streams.1@, self.streams.2@, self.streams.3@, self.streams.4@, self.streams.5@, self.streams.6@, self.streams.7@, self.streams.8@, self.streams.9@)
    }

    /// The keys left in each stream.
    pub open spec fn key_seqs(&self) -> Seq<Seq<u64>> {
        seq![keys_of(self.parts().0), keys_of(self.parts().1), keys_of(self.parts().2), keys_of(self.parts().3), keys_of(self.parts().4), keys_of(self.parts().5), keys_of(self.parts().6), keys_of(self.parts().7), keys_of(self.parts().8), keys_of(self.parts().9)]
    }

    /// Every stream is in strictly increasing key order.
    pub open spec fn wf(&self) -> bool {
        ascending(self.parts().0) && ascending(self.parts().1) && ascending(self.parts().2) && ascending(self.parts().3) && ascending(self.parts().4) && ascending(self.parts().5) && ascending(self.parts().6) && ascending(self.parts().7) && ascending(self.parts().8) && ascending(self.parts().9)
    }

    /// The join of ten streams.
    pub fn of_ten(s0: Stream<A>, s1: Stream<B>, s2: Stream<C>, s3: Stream<D>, s4: Stream<E>, s5: Stream<F>, s6: Stream<G>, s7: Stream<H>, s8: Stream<J>, s9: Stream<L>) -> (j: Self)
        requires
            ascending(s0@),
            ascending(s1@),
            ascending(s2@),
            ascending(s3@),
            ascending(s4@),
            ascending(s5@),
            ascending(s6@),
            ascending(s7@),
            ascending(s8@),
            ascending(s9@),
        ensures
            j.parts() == (s0@, s1@, s2@, s3@, s4@, s5@, s6@, s7@, s8@, s9@),
            j.wf(),
    {
        KVAJoin { streams: (s0, s1, s2, s3, s4, s5, s6, s7, s8, s9) }
    }

    /// The next row: the least key held by every stream, with the value of
    /// each; `None` when no key is held by all of them.
    #[verifier::rlimit(100)]
    pub fn next(&mut self) -> (r: Option<(u64, (A, B, C, D, E, F, G, H, J, L))>)
        requires
            old(self).wf(),
        ensures
            final(self).wf(),
            r is None ==> forall|x: u64| !in_all(old(self).key_seqs(), x),
            r matches Some((k, (a, b, c, d, e, f, g, h, j, l))) ==> {
                &&& least_common(old(self).key_seqs(), k)
                &&& taken_through(old(self).parts().0, final(self).parts().0, k, a)
                &&& taken_through(old(self).parts().1, final(self).parts().1, k, b)
                &&& taken_through(old(self).parts().2, final(self).parts().2, k, c)
                &&& taken_through(old(self).parts().3, final(self).parts().3, k, d)
                &&& taken_through(old(self).parts().4, final(self).parts().4, k, e)
                &&& taken_through(old(self).parts().5, final(self).parts().5, k, f)
                &&& taken_through(old(self).parts().6, final(self).parts().6, k, g)
                &&& taken_through(old(self).parts().7, final(self).parts().7, k, h)
                &&& taken_through(old(self).parts().8, final(self).parts().8, k, j)
                &&& taken_through(old(self).parts().9, final(self).parts().9, k, l)
            },
    {
        let ghost ks0 = self.key_seqs();
        let ghost p0 = self.parts().0;
        let ghost p1 = self.parts().1;
        let ghost p2 = self.parts().2;
        let ghost p3 = self.parts().3;
        let ghost p4 = self.parts().4;
        let ghost p5 = self.parts().5;
        let ghost p6 = self.parts().6;
        let ghost p7 = self.parts().7;
        let ghost p8 = self.parts().8;
        let ghost p9 = self.parts().9;
        let ghost mut d0: int = 0;
        let ghost mut d1: int = 0;
        let ghost mut d2: int = 0;
        let ghost mut d3: int = 0;
        let ghost mut d4: int = 0;
        let ghost mut d5: int = 0;
        let ghost mut d6: int = 0;
        let ghost mut d7: int = 0;
        let ghost mut d8: int = 0;
        let ghost mut d9: int = 0;
        assert(p0.skip(0) == p0);
        assert(p1.skip(0) == p1);
        assert(p2.skip(0) == p2);
        assert(p3.skip(0) == p3);
        assert(p4.skip(0) == p4);
        assert(p5.skip(0) == p5);
        assert(p6.skip(0) == p6);
        assert(p7.skip(0) == p7);
        assert(p8.skip(0) == p8);
        assert(p9.skip(0) == p9);
        loop
            invariant
                0 <= d0 <= p0.len(),
                self.parts().0 == p0.skip(d0),
                ascending(p0),
                p0 == old(self).parts().0,
                0 <= d1 <= p1.len(),
                self.parts().1 == p1.skip(d1),
                ascending(p1),
                p1 == old(self).parts().1,
                0 <= d2 <= p2.len(),
                self.parts().2 == p2.skip(d2),
                ascending(p2),
                p2 == old(self).parts().2,
                0 <= d3 <= p3.len(),
                self.parts().3 == p3.skip(d3),
                ascending(p3),
                p3 == old(self).parts().3,
                0 <= d4 <= p4.len(),
                self.parts().4 == p4.skip(d4),
                ascending(p4),
                p4 == old(self).parts().4,
                0 <= d5 <= p5.len(),
                self.parts().5 == p5.skip(d5),
                ascending(p5),
                p5 == old(self).parts().5,
                0 <= d6 <= p6.len(),
                self.parts().6 == p6.skip(d6),
                ascending(p6),
                p6 == old(self).parts().6,
                0 <= d7 <= p7.len(),
                self.parts().7 == p7.skip(d7),
                ascending(p7),
                p7 == old(self).parts().7,
                0 <= d8 <= p8.len(),
                self.parts().8 == p8.skip(d8),
                ascending(p8),
                p8 == old(self).parts().8,
                0 <= d9 <= p9.len(),
                self.parts().9 == p9.skip(d9),
                ascending(p9),
                p9 == old(self).parts().9,
                ks0 == old(self).key_seqs(),
                self.wf(),
                forall|x: u64| in_all(ks0, x) ==> in_all(self.key_seqs(), x),
            decreases self.parts().0.len() + self.parts().1.len() + self.parts().2.len() + self.parts().3.len() + self.parts().4.len() + self.parts().5.len() + self.parts().6.len() + self.parts().7.len() + self.parts().8.len() + self.parts().9.len(),
        {
            let ghost cur = self.key_seqs();
            let ghost c0 = self.parts().0;
            let ghost c1 = self.parts().1;
            let ghost c2 = self.parts().2;
            let ghost c3 = self.parts().3;
            let ghost c4 = self.parts().4;
            let ghost c5 = self.parts().5;
            let ghost c6 = self.parts().6;
            let ghost c7 = self.parts().7;
            let ghost c8 = self.parts().8;
            let ghost c9 = self.parts().9;
            let h0 = match self.streams.0.head_key() {
                Some(k) => k,
                None => {
                    assert forall|x: u64| !in_all(ks0, x) by {
                        if in_all(ks0, x) {
                            assert(cur[0].contains(x));
                            assert(cur[0] == keys_of(c0));
                        }
                    }
                    return None;
                },
            };
            let h1 = match self.streams.1.head_key() {
                Some(k) => k,
                None => {
                    assert forall|x: u64| !in_all(ks0, x) by {
                        if in_all(ks0, x) {
                            assert(cur[1].contains(x));
                            assert(cur[1] == keys_of(c1));
                        }
                    }
                    return None;
                },
            };
            let h2 = match self.streams.2.head_key() {
                Some(k) => k,
                None => {
                    assert forall|x: u64| !in_all(ks0, x) by {
                        if in_all(ks0, x) {
                            assert(cur[2].contains(x));
                            assert(cur[2] == keys_of(c2));
                        }
                    }
                    return None;
                },
            };
            let h3 = match self.streams.3.head_key() {
                Some(k) => k,
                None => {
                    assert forall|x: u64| !in_all(ks0, x) by {
                        if in_all(ks0, x) {
                            assert(cur[3].contains(x));
                            assert(cur[3] == keys_of(c3));
                        }
                    }
                    return None;
                },
            };
            let h4 = match self.streams.4.head_key() {
                Some(k) => k,
                None => {
                    assert forall|x: u64| !in_all(ks0, x) by {
                        if in_all(ks0, x) {
                            assert(cur[4].contains(x));
                            assert(cur[4] == keys_of(c4));
                        }
                    }
                    return None;
                },
            };
            let h5 = match self.streams.5.head_key() {
                Some(k) => k,
                None => {
                    assert forall|x: u64| !in_all(ks0, x) by {
                        if in_all(ks0, x) {
                            assert(cur[5].contains(x));
                            assert(cur[5] == keys_of(c5));
                        }
                    }
                    return None;
                },
            };
            let h6 = match self.streams.6.head_key() {
                Some(k) => k,
                None => {
                    assert forall|x: u64| !in_all(ks0, x) by {
                        if in_all(ks0, x) {
                            assert(cur[6].contains(x));
                            assert(cur[6] == keys_of(c6));
                        }
                    }
                    return None;
                },
            };
            let h7 = match self.streams.7.head_key() {
                Some(k) => k,
                None => {
                    assert forall|x: u64| !in_all(ks0, x) by {
                        if in_all(ks0, x) {
                            assert(cur[7].contains(x));
                            assert(cur[7] == keys_of(c7));
                        }
                    }
                    return None;
                },
            };
            let h8 = match self.streams.8.head_key() {
                Some(k) => k,
                None => {
                    assert forall|x: u64| !in_all(ks0, x) by {
                        if in_all(ks0, x) {
                            assert(cur[8].contains(x));
                            assert(cur[8] == keys_of(c8));
                        }
                    }
                    return None;
                },
            };
            let h9 = match self.streams.9.head_key() {
                Some(k) => k,
                None => {
                    assert forall|x: u64| !in_all(ks0, x) by {
                        if in_all(ks0, x) {
                            assert(cur[9].contains(x));
                            assert(cur[9] == keys_of(c9));
                        }
                    }
                    return None;
                },
            };
            proof {
                lemma_head(c0);
                lemma_head(c1);
                lemma_head(c2);
                lemma_head(c3);
                lemma_head(c4);
                lemma_head(c5);
                lemma_head(c6);
                lemma_head(c7);
                lemma_head(c8);
                lemma_head(c9);
            }
            let k = if h0 < h1 { h1 } else { h0 };
            let k = if k < h2 { h2 } else { k };
            let k = if k < h3 { h3 } else { k };
            let k = if k < h4 { h4 } else { k };
            let k = if k < h5 { h5 } else { k };
            let k = if k < h6 { h6 } else { k };
            let k = if k < h7 { h7 } else { k };
            let k = if k < h8 { h8 } else { k };
            let k = if k < h9 { h9 } else { k };
            if h0 == k && h1 == k && h2 == k && h3 == k && h4 == k && h5 == k && h6 == k && h7 == k && h8 == k && h9 == k {
                let (_, a) = self.streams.0.pull().unwrap();
                let (_, b) = self.streams.1.pull().unwrap();
                let (_, c) = self.streams.2.pull().unwrap();
                let (_, d) = self.streams.3.pull().unwrap();
                let (_, e) = self.streams.4.pull().unwrap();
                let (_, f) = self.streams.5.pull().unwrap();
                let (_, g) = self.streams.6.pull().unwrap();
                let (_, h) = self.streams.7.pull().unwrap();
                let (_, j) = self.streams.8.pull().unwrap();
                let (_, l) = self.streams.9.pull().unwrap();
                proof {
                    assert(p0[d0] == (k, a));
                    assert(p0.skip(d0).drop_first() == p0.skip(d0 + 1));
                    lemma_keys_of(p0);
                    assert(keys_of(p0)[d0] == k);
                    assert(p1[d1] == (k, b));
                    assert(p1.skip(d1).drop_first() == p1.skip(d1 + 1));
                    lemma_keys_of(p1);
                    assert(keys_of(p1)[d1] == k);
                    assert(p2[d2] == (k, c));
                    assert(p2.skip(d2).drop_first() == p2.skip(d2 + 1));
                    lemma_keys_of(p2);
                    assert(keys_of(p2)[d2] == k);
                    assert(p3[d3] == (k, d));
                    assert(p3.skip(d3).drop_first() == p3.skip(d3 + 1));
                    lemma_keys_of(p3);
                    assert(keys_of(p3)[d3] == k);
                    assert(p4[d4] == (k, e));
                    assert(p4.skip(d4).drop_first() == p4.skip(d4 + 1));
                    lemma_keys_of(p4);
                    assert(keys_of(p4)[d4] == k);
                    assert(p5[d5] == (k, f));
                    assert(p5.skip(d5).drop_first() == p5.skip(d5 + 1));
                    lemma_keys_of(p5);
                    assert(keys_of(p5)[d5] == k);
                    assert(p6[d6] == (k, g));
                    assert(p6.skip(d6).drop_first() == p6.skip(d6 + 1));
                    lemma_keys_of(p6);
                    assert(keys_of(p6)[d6] == k);
                    assert(p7[d7] == (k, h));
                    assert(p7.skip(d7).drop_first() == p7.skip(d7 + 1));
                    lemma_keys_of(p7);
                    assert(keys_of(p7)[d7] == k);
                    assert(p8[d8] == (k, j));
                    assert(p8.skip(d8).drop_first() == p8.skip(d8 + 1));
                    lemma_keys_of(p8);
                    assert(keys_of(p8)[d8] == k);
                    assert(p9[d9] == (k, l));
                    assert(p9.skip(d9).drop_first() == p9.skip(d9 + 1));
                    lemma_keys_of(p9);
                    assert(keys_of(p9)[d9] == k);
                    assert(in_all(ks0, k));
                    lemma_keys_of(c0);
                    lemma_intersection_found(ks0, cur, k);
                }
                return Some((k, (a, b, c, d, e, f, g, h, j, l)));
            }
            self.streams.0.skip_below(k);
            self.streams.1.skip_below(k);
            self.streams.2.skip_below(k);
            self.streams.3.skip_below(k);
            self.streams.4.skip_below(k);
            self.streams.5.skip_below(k);
            self.streams.6.skip_below(k);
            self.streams.7.skip_below(k);
            self.streams.8.skip_below(k);
            self.streams.9.skip_below(k);
            proof {
                assert(p0.skip(d0).drop_first() == p0.skip(d0 + 1));
                assert(p1.skip(d1).drop_first() == p1.skip(d1 + 1));
                assert(p2.skip(d2).drop_first() == p2.skip(d2 + 1));
                assert(p3.skip(d3).drop_first() == p3.skip(d3 + 1));
                assert(p4.skip(d4).drop_first() == p4.skip(d4 + 1));
                assert(p5.skip(d5).drop_first() == p5.skip(d5 + 1));
                assert(p6.skip(d6).drop_first() == p6.skip(d6 + 1));
                assert(p7.skip(d7).drop_first() == p7.skip(d7 + 1));
                assert(p8.skip(d8).drop_first() == p8.skip(d8 + 1));
                assert(p9.skip(d9).drop_first() == p9.skip(d9 + 1));
                d0 = if h0 < k { d0 + 1 } else { d0 };
                d1 = if h1 < k { d1 + 1 } else { d1 };
                d2 = if h2 < k { d2 + 1 } else { d2 };
                d3 = if h3 < k { d3 + 1 } else { d3 };
                d4 = if h4 < k { d4 + 1 } else { d4 };
                d5 = if h5 < k { d5 + 1 } else { d5 };
                d6 = if h6 < k { d6 + 1 } else { d6 };
                d7 = if h7 < k { d7 + 1 } else { d7 };
                d8 = if h8 < k { d8 + 1 } else { d8 };
                d9 = if h9 < k { d9 + 1 } else { d9 };
            }
            proof {
                let nks = self.key_seqs();
                lemma_keys_of(c0);
                lemma_keys_of(c1);
                lemma_keys_of(c2);
                lemma_keys_of(c3);
                lemma_keys_of(c4);
                lemma_keys_of(c5);
                lemma_keys_of(c6);
                lemma_keys_of(c7);
                lemma_keys_of(c8);
                lemma_keys_of(c9);
                assert(all_increasing(cur));
                assert(cur[0][0] == k || cur[1][0] == k || cur[2][0] == k || cur[3][0] == k || cur[4][0] == k || cur[5][0] == k || cur[6][0] == k || cur[7][0] == k || cur[8][0] == k || cur[9][0] == k);
                assert forall|i: int| 0 <= i < cur.len() implies #[trigger] nks[i] == (if cur[i][0] < k {
                    cur[i].drop_first()
                } else {
                    cur[i]
                }) by {
                    assert(nks[0] == keys_of(self.parts().0));
                    assert(nks[1] == keys_of(self.parts().1));
                    assert(nks[2] == keys_of(self.parts().2));
                    assert(nks[3] == keys_of(self.parts().3));
                    assert(nks[4] == keys_of(self.parts().4));
                    assert(nks[5] == keys_of(self.parts().5));
                    assert(nks[6] == keys_of(self.parts().6));
                    assert(nks[7] == keys_of(self.parts().7));
                    assert(nks[8] == keys_of(self.parts().8));
                    assert(nks[9] == keys_of(self.parts().9));
                }
                lemma_intersection_advance(ks0, cur, nks, k);
            }
        }
    }

    /// Every row, in order, until the join is exhausted: one for each key
    /// that every stream holds, in increasing key order.
    #[verifier::rlimit(100)]
    pub fn rows(&mut self) -> (rows: Vec<(u64, (A, B, C, D, E, F, G, H, J, L))>)
        requires
            old(self).wf(),
        ensures
            final(self).wf(),
            rows@.len() == common_keys(old(self).key_seqs()).len(),
            forall|i: int| 0 <= i < rows@.len() ==> common_keys(old(self).key_seqs()).contains(#[trigger] rows@[i].0),
            forall|i: int, j: int| 0 <= i < j < rows@.len() ==> rows@[i].0 < rows@[j].0,
            forall|i: int|
                0 <= i < rows@.len() ==> {
                    &&& old(self).parts().0.contains((#[trigger] rows@[i].0, rows@[i].1.0))
                    &&& old(self).parts().1.contains((rows@[i].0, rows@[i].1.1))
                    &&& old(self).parts().2.contains((rows@[i].0, rows@[i].1.2))
                    &&& old(self).parts().3.contains((rows@[i].0, rows@[i].1.3))
                    &&& old(self).parts().4.contains((rows@[i].0, rows@[i].1.4))
                    &&& old(self).parts().5.contains((rows@[i].0, rows@[i].1.5))
                    &&& old(self).parts().6.contains((rows@[i].0, rows@[i].1.6))
                    &&& old(self).parts().7.contains((rows@[i].0, rows@[i].1.7))
                    &&& old(self).parts().8.contains((rows@[i].0, rows@[i].1.8))
                    &&& old(self).parts().9.contains((rows@[i].0, rows@[i].1.9))
                },
    {
        let ghost start = *self;
        let mut rows: Vec<(u64, (A, B, C, D, E, F, G, H, J, L))> = Vec::new();
        proof {
            lemma_common_keys_finite(start.key_seqs());
        }
        loop
            invariant
                self.wf(),
                start == *old(self),
                common_keys(self.key_seqs()).finite(),
                common_keys(start.key_seqs()).finite(),
                rows@.len() + common_keys(self.key_seqs()).len() == common_keys(start.key_seqs()).len(),
                forall|x: u64| common_keys(self.key_seqs()).contains(x) ==> common_keys(start.key_seqs()).contains(x),
                forall|i: int| 0 <= i < rows@.len() ==> common_keys(start.key_seqs()).contains(#[trigger] rows@[i].0),
                forall|i: int, x: u64|
                    0 <= i < rows@.len() && #[trigger] common_keys(self.key_seqs()).contains(x) ==> #[trigger] rows@[i].0 < x,
                forall|i: int, j: int| 0 <= i < j < rows@.len() ==> rows@[i].0 < rows@[j].0,
                forall|p: (u64, A)| self.parts().0.contains(p) ==> start.parts().0.contains(p),
                forall|p: (u64, B)| self.parts().1.contains(p) ==> start.parts().1.contains(p),
                forall|p: (u64, C)| self.parts().2.contains(p) ==> start.parts().2.contains(p),
                forall|p: (u64, D)| self.parts().3.contains(p) ==> start.parts().3.contains(p),
                forall|p: (u64, E)| self.parts().4.contains(p) ==> start.parts().4.contains(p),
                forall|p: (u64, F)| self.parts().5.contains(p) ==> start.parts().5.contains(p),
                forall|p: (u64, G)| self.parts().6.contains(p) ==> start.parts().6.contains(p),
                forall|p: (u64, H)| self.parts().7.contains(p) ==> start.parts().7.contains(p),
                forall|p: (u64, J)| self.parts().8.contains(p) ==> start.parts().8.contains(p),
                forall|p: (u64, L)| self.parts().9.contains(p) ==> start.parts().9.contains(p),
                forall|i: int|
                    0 <= i < rows@.len() ==> {
                        &&& start.parts().0.contains((#[trigger] rows@[i].0, rows@[i].1.0))
                        &&& start.parts().1.contains((rows@[i].0, rows@[i].1.1))
                        &&& start.parts().2.contains((rows@[i].0, rows@[i].1.2))
                        &&& start.parts().3.contains((rows@[i].0, rows@[i].1.3))
                        &&& start.parts().4.contains((rows@[i].0, rows@[i].1.4))
                        &&& start.parts().5.contains((rows@[i].0, rows@[i].1.5))
                        &&& start.parts().6.contains((rows@[i].0, rows@[i].1.6))
                        &&& start.parts().7.contains((rows@[i].0, rows@[i].1.7))
                        &&& start.parts().8.contains((rows@[i].0, rows@[i].1.8))
                        &&& start.parts().9.contains((rows@[i].0, rows@[i].1.9))
                    },
            decreases common_keys(self.key_seqs()).len(),
        {
            let ghost cur = *self;
            match self.next() {
                None => {
                    proof {
                        lemma_common_keys_finite(cur.key_seqs());
                        assert(common_keys(cur.key_seqs()) =~= Set::empty());
                    }
                    return rows;
                },
                Some((k, (a, b, c, d, e, f, g, h, j, l))) => {
                    proof {
                        lemma_taken_through(cur.parts().0, self.parts().0, k, a);
                        lemma_taken_through(cur.parts().1, self.parts().1, k, b);
                        lemma_taken_through(cur.parts().2, self.parts().2, k, c);
                        lemma_taken_through(cur.parts().3, self.parts().3, k, d);
                        lemma_taken_through(cur.parts().4, self.parts().4, k, e);
                        lemma_taken_through(cur.parts().5, self.parts().5, k, f);
                        lemma_taken_through(cur.parts().6, self.parts().6, k, g);
                        lemma_taken_through(cur.parts().7, self.parts().7, k, h);
                        lemma_taken_through(cur.parts().8, self.parts().8, k, j);
                        lemma_taken_through(cur.parts().9, self.parts().9, k, l);
                        let ks = cur.key_seqs();
                        let nks = self.key_seqs();
                        assert forall|i: int, x: u64| 0 <= i < ks.len() implies (#[trigger] nks[i].contains(x)
                            <==> ks[i].contains(x) && x > k) by {
                            assert(keys_of(self.parts().0).contains(x) <==> keys_of(cur.parts().0).contains(x) && x > k);
                            assert(keys_of(self.parts().1).contains(x) <==> keys_of(cur.parts().1).contains(x) && x > k);
                            assert(keys_of(self.parts().2).contains(x) <==> keys_of(cur.parts().2).contains(x) && x > k);
                            assert(keys_of(self.parts().3).contains(x) <==> keys_of(cur.parts().3).contains(x) && x > k);
                            assert(keys_of(self.parts().4).contains(x) <==> keys_of(cur.parts().4).contains(x) && x > k);
                            assert(keys_of(self.parts().5).contains(x) <==> keys_of(cur.parts().5).contains(x) && x > k);
                            assert(keys_of(self.parts().6).contains(x) <==> keys_of(cur.parts().6).contains(x) && x > k);
                            assert(keys_of(self.parts().7).contains(x) <==> keys_of(cur.parts().7).contains(x) && x > k);
                            assert(keys_of(self.parts().8).contains(x) <==> keys_of(cur.parts().8).contains(x) && x > k);
                            assert(keys_of(self.parts().9).contains(x) <==> keys_of(cur.parts().9).contains(x) && x > k);
                        }
                        lemma_intersection_step(ks, nks, k);
                        lemma_common_keys_finite(nks);
                    }
                    rows.push((k, (a, b, c, d, e, f, g, h, j, l)));
                },
            }
        }
    }
}

} // verus!
