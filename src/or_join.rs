//! The union join: a row for each key that some stream holds, until the
//! first stream runs out.
use vstd::prelude::*;
use crate::keys::{
    all_increasing, in_any, least_held, lemma_reach_keys_finite, lemma_union_step, reach_keys,
};
use crate::stream::{
    ascending, head_slot, keys_of, lemma_head, lemma_keys_of, lemma_past_head, past_head, Stream,
};

verus! {

/// A union join over a tuple of streams. Each call of `next` yields the least
/// key at the head of any stream, with a slot per stream that holds the
/// stream's value for that key if its head carries it and is absent
/// otherwise. The join ends as soon as any one stream is exhausted.
pub struct KVOJoin<T> {
    streams: T,
}

impl<A, B> KVOJoin<(Stream<A>, Stream<B>)> {
    /// The pairs left in each stream.
    pub closed spec fn parts(&self) -> (Seq<(u64, A)>, Seq<(u64, B)>) {
        (self.streams.0@, self.streams.1@)
    }

    /// The keys left in each stream.
    pub open spec fn key_seqs(&self) -> Seq<Seq<u64>> {
        seq![keys_of(self.parts().0), keys_of(self.parts().1)]
    }

    /// Every stream is in strictly increasing key order.
    pub open spec fn wf(&self) -> bool {
        ascending(self.parts().0) && ascending(self.parts().1)
    }

    /// The join of two streams.
    pub fn of_two(s0: Stream<A>, s1: Stream<B>) -> (j: Self)
        requires
            ascending(s0@),
            ascending(s1@),
        ensures
            j.parts() == (s0@, s1@),
            j.wf(),
    {
        KVOJoin { streams: (s0, s1) }
    }

    /// The next row: the least key left in any stream, with the value of
    /// each stream whose head carries it; `None` once any stream is
    /// exhausted.
    pub fn next(&mut self) -> (r: Option<(u64, (Option<A>, Option<B>))>)
        requires
            old(self).wf(),
        ensures
            final(self).wf(),
            r is None <==> old(self).parts().0.len() == 0 || old(self).parts().1.len() == 0,
            r is None ==> final(self).parts() == old(self).parts(),
            r matches Some((k, (a, b))) ==> {
                &&& least_held(old(self).key_seqs(), k)
                &&& a == head_slot(old(self).parts().0, k)
                &&& b == head_slot(old(self).parts().1, k)
                &&& (a is Some <==> keys_of(old(self).parts().0).contains(k))
                &&& (b is Some <==> keys_of(old(self).parts().1).contains(k))
                &&& final(self).parts().0 == past_head(old(self).parts().0, k)
                &&& final(self).parts().1 == past_head(old(self).parts().1, k)
            },
    {
        let ghost ks = self.key_seqs();
        let h0 = match self.streams.0.head_key() {
            Some(k) => k,
            None => return None,
        };
        let h1 = match self.streams.1.head_key() {
            Some(k) => k,
            None => return None,
        };
        proof {
            lemma_head(self.parts().0);
            lemma_head(self.parts().1);
        }
        let k = if h1 < h0 { h1 } else { h0 };
        let a = self.streams.0.take_if_key(k);
        let b = self.streams.1.take_if_key(k);
        proof {
            if h0 == k {
                assert(ks[0].contains(k));
            }
            if h1 == k {
                assert(ks[1].contains(k));
            }
            assert(in_any(ks, k));
            assert forall|x: u64| x < k implies !in_any(ks, x) by {
                if in_any(ks, x) {
                    let i = choose|i: int| 0 <= i < ks.len() && (#[trigger] ks[i]).contains(x);
                    assert(i == 0 || i == 1);
                }
            }
        }
        Some((k, (a, b)))
    }

    /// Every row, in order, until the join ends: one for each key that some
    /// stream holds and that lies at or below the last key of every stream,
    /// in increasing key order. A slot is present exactly where its stream
    /// holds the row's key, and then carries that stream's value.
    pub fn rows(&mut self) -> (rows: Vec<(u64, (Option<A>, Option<B>))>)
        requires
            old(self).wf(),
        ensures
            final(self).wf(),
            rows@.len() == reach_keys(old(self).key_seqs()).len(),
            forall|i: int| 0 <= i < rows@.len() ==> reach_keys(old(self).key_seqs()).contains(#[trigger] rows@[i].0),
            forall|i: int, j: int| 0 <= i < j < rows@.len() ==> rows@[i].0 < rows@[j].0,
            forall|i: int|
                0 <= i < rows@.len() ==> {
                    &&& ((#[trigger] rows@[i]).1.0 is Some <==> keys_of(old(self).parts().0).contains(rows@[i].0))
                    &&& (rows@[i].1.1 is Some <==> keys_of(old(self).parts().1).contains(rows@[i].0))
                    &&& (rows@[i].1.0 matches Some(v) ==> old(self).parts().0.contains((rows@[i].0, v)))
                    &&& (rows@[i].1.1 matches Some(v) ==> old(self).parts().1.contains((rows@[i].0, v)))
                },
    {
        let ghost start = *self;
        let mut rows: Vec<(u64, (Option<A>, Option<B>))> = Vec::new();
        proof {
            lemma_reach_keys_finite(start.key_seqs());
        }
        loop
            invariant
                self.wf(),
                start == *old(self),
                reach_keys(self.key_seqs()).finite(),
                reach_keys(start.key_seqs()).finite(),
                rows@.len() + reach_keys(self.key_seqs()).len() == reach_keys(start.key_seqs()).len(),
                forall|x: u64| reach_keys(self.key_seqs()).contains(x) ==> reach_keys(start.key_seqs()).contains(x),
                forall|i: int| 0 <= i < rows@.len() ==> reach_keys(start.key_seqs()).contains(#[trigger] rows@[i].0),
                forall|i: int, x: u64|
                    0 <= i < rows@.len() && #[trigger] reach_keys(self.key_seqs()).contains(x) ==> #[trigger] rows@[i].0 < x,
                forall|i: int, j: int| 0 <= i < j < rows@.len() ==> rows@[i].0 < rows@[j].0,
                forall|x: u64| #[trigger] keys_of(self.parts().0).contains(x) <==> keys_of(start.parts().0).contains(x)
                    && (rows@.len() == 0 || rows@.last().0 < x),
                forall|x: u64| #[trigger] keys_of(self.parts().1).contains(x) <==> keys_of(start.parts().1).contains(x)
                    && (rows@.len() == 0 || rows@.last().0 < x),
                forall|p: (u64, A)| self.parts().0.contains(p) ==> start.parts().0.contains(p),
                forall|p: (u64, B)| self.parts().1.contains(p) ==> start.parts().1.contains(p),
                forall|i: int|
                    0 <= i < rows@.len() ==> {
                        &&& ((#[trigger] rows@[i]).1.0 is Some <==> keys_of(start.parts().0).contains(rows@[i].0))
                        &&& (rows@[i].1.1 is Some <==> keys_of(start.parts().1).contains(rows@[i].0))
                        &&& (rows@[i].1.0 matches Some(v) ==> start.parts().0.contains((rows@[i].0, v)))
                        &&& (rows@[i].1.1 matches Some(v) ==> start.parts().1.contains((rows@[i].0, v)))
                    },
            decreases reach_keys(self.key_seqs()).len(),
        {
            let ghost cur = *self;
            let ghost ks = cur.key_seqs();
            match self.next() {
                None => {
                    proof {
                        lemma_reach_keys_finite(ks);
                        assert forall|x: u64| !reach_keys(ks).contains(x) by {
                            if cur.parts().0.len() == 0 {
                                assert(ks[0].len() == 0);
                            }
                            if cur.parts().1.len() == 0 {
                                assert(ks[1].len() == 0);
                            }
                        }
                        assert(reach_keys(ks) =~= Set::empty());
                    }
                    return rows;
                },
                Some((k, (a, b))) => {
                    proof {
                        let nks = self.key_seqs();
                        lemma_keys_of(cur.parts().0);
                        assert(ks[0].contains(ks[0][0]));
                        assert(in_any(ks, ks[0][0]));
                        assert(keys_of(cur.parts().0)[0] == cur.parts().0[0].0);
                        lemma_past_head(cur.parts().0, k);
                        lemma_keys_of(cur.parts().1);
                        assert(ks[1].contains(ks[1][0]));
                        assert(in_any(ks, ks[1][0]));
                        assert(keys_of(cur.parts().1)[0] == cur.parts().1[0].0);
                        lemma_past_head(cur.parts().1, k);
                        assert(all_increasing(ks));
                        assert forall|i: int| 0 <= i < ks.len() implies #[trigger] nks[i] == (if ks[i][0] == k {
                            ks[i].drop_first()
                        } else {
                            ks[i]
                        }) by {
                            assert(nks[0] == keys_of(past_head(cur.parts().0, k)));
                            assert(nks[1] == keys_of(past_head(cur.parts().1, k)));
                        }
                        lemma_union_step(ks, nks, k);
                        lemma_reach_keys_finite(nks);
                    }
                    rows.push((k, (a, b)));
                },
            }
        }
    }
}

impl<A, B, C> KVOJoin<(Stream<A>, Stream<B>, Stream<C>)> {
    /// The pairs left in each stream.
    pub closed spec fn parts(&self) -> (Seq<(u64, A)>, Seq<(u64, B)>, Seq<(u64, C)>) {
        (self.streams.0@, self.streams.1@, self.streams.2@)
    }

    /// The keys left in each stream.
    pub open spec fn key_seqs(&self) -> Seq<Seq<u64>> {
        seq![keys_of(self.parts().0), keys_of(self.parts().1), keys_of(self.parts().2)]
    }

    /// Every stream is in strictly increasing key order.
    pub open spec fn wf(&self) -> bool {
        ascending(self.parts().0) && ascending(self.parts().1) && ascending(self.parts().2)
    }

    /// The join of three streams.
    pub fn of_three(s0: Stream<A>, s1: Stream<B>, s2: Stream<C>) -> (j: Self)
        requires
            ascending(s0@),
            ascending(s1@),
            ascending(s2@),
        ensures
            j.parts() == (s0@, s1@, s2@),
            j.wf(),
    {
        KVOJoin { streams: (s0, s1, s2) }
    }

    /// The next row: the least key left in any stream, with the value of
    /// each stream whose head carries it; `None` once any stream is
    /// exhausted.
    pub fn next(&mut self) -> (r: Option<(u64, (Option<A>, Option<B>, Option<C>))>)
        requires
            old(self).wf(),
        ensures
            final(self).wf(),
            r is None <==> old(self).parts().0.len() == 0 || old(self).parts().1.len() == 0 || old(self).parts().2.len() == 0,
            r is None ==> final(self).parts() == old(self).parts(),
            r matches Some((k, (a, b, c))) ==> {
                &&& least_held(old(self).key_seqs(), k)
                &&& a == head_slot(old(self).parts().0, k)
                &&& b == head_slot(old(self).parts().1, k)
                &&& c == head_slot(old(self).parts().2, k)
                &&& (a is Some <==> keys_of(old(self).parts().0).contains(k))
                &&& (b is Some <==> keys_of(old(self).parts().1).contains(k))
                &&& (c is Some <==> keys_of(old(self).parts().2).contains(k))
                &&& final(self).parts().0 == past_head(old(self).parts().0, k)
                &&& final(self).parts().1 == past_head(old(self).parts().1, k)
                &&& final(self).parts().2 == past_head(old(self).parts().2, k)
            },
    {
        let ghost ks = self.key_seqs();
        let h0 = match self.streams.0.head_key() {
            Some(k) => k,
            None => return None,
        };
        let h1 = match self.streams.1.head_key() {
            Some(k) => k,
            None => return None,
        };
        let h2 = match self.streams.2.head_key() {
            Some(k) => k,
            None => return None,
        };
        proof {
            lemma_head(self.parts().0);
            lemma_head(self.parts().1);
            lemma_head(self.parts().2);
        }
        let k = if h1 < h0 { h1 } else { h0 };
        let k = if h2 < k { h2 } else { k };
        let a = self.streams.0.take_if_key(k);
        let b = self.streams.1.take_if_key(k);
        let c = self.streams.2.take_if_key(k);
        proof {
            if h0 == k {
                assert(ks[0].contains(k));
            }
            if h1 == k {
                assert(ks[1].contains(k));
            }
            if h2 == k {
                assert(ks[2].contains(k));
            }
            assert(in_any(ks, k));
            assert forall|x: u64| x < k implies !in_any(ks, x) by {
                if in_any(ks, x) {
                    let i = choose|i: int| 0 <= i < ks.len() && (#[trigger] ks[i]).contains(x);
                    assert(i == 0 || i == 1 || i == 2);
                }
            }
        }
        Some((k, (a, b, c)))
    }

    /// Every row, in order, until the join ends: one for each key that some
    /// stream holds and that lies at or below the last key of every stream,
    /// in increasing key order. A slot is present exactly where its stream
    /// holds the row's key, and then carries that stream's value.
    pub fn rows(&mut self) -> (rows: Vec<(u64, (Option<A>, Option<B>, Option<C>))>)
        requires
            old(self).wf(),
        ensures
            final(self).wf(),
            rows@.len() == reach_keys(old(self).key_seqs()).len(),
            forall|i: int| 0 <= i < rows@.len() ==> reach_keys(old(self).key_seqs()).contains(#[trigger] rows@[i].0),
            forall|i: int, j: int| 0 <= i < j < rows@.len() ==> rows@[i].0 < rows@[j].0,
            forall|i: int|
                0 <= i < rows@.len() ==> {
                    &&& ((#[trigger] rows@[i]).1.0 is Some <==> keys_of(old(self).parts().0).contains(rows@[i].0))
                    &&& (rows@[i].1.1 is Some <==> keys_of(old(self).parts().1).contains(rows@[i].0))
                    &&& (rows@[i].1.2 is Some <==> keys_of(old(self).parts().2).contains(rows@[i].0))
                    &&& (rows@[i].1.0 matches Some(v) ==> old(self).parts().0.contains((rows@[i].0, v)))
                    &&& (rows@[i].1.1 matches Some(v) ==> old(self).parts().1.contains((rows@[i].0, v)))
                    &&& (rows@[i].1.2 matches Some(v) ==> old(self).parts().2.contains((rows@[i].0, v)))
                },
    {
        let ghost start = *self;
        let mut rows: Vec<(u64, (Option<A>, Option<B>, Option<C>))> = Vec::new();
        proof {
            lemma_reach_keys_finite(start.key_seqs());
        }
        loop
            invariant
                self.wf(),
                start == *old(self),
                reach_keys(self.key_seqs()).finite(),
                reach_keys(start.key_seqs()).finite(),
                rows@.len() + reach_keys(self.key_seqs()).len() == reach_keys(start.key_seqs()).len(),
                forall|x: u64| reach_keys(self.key_seqs()).contains(x) ==> reach_keys(start.key_seqs()).contains(x),
                forall|i: int| 0 <= i < rows@.len() ==> reach_keys(start.key_seqs()).contains(#[trigger] rows@[i].0),
                forall|i: int, x: u64|
                    0 <= i < rows@.len() && #[trigger] reach_keys(self.key_seqs()).contains(x) ==> #[trigger] rows@[i].0 < x,
                forall|i: int, j: int| 0 <= i < j < rows@.len() ==> rows@[i].0 < rows@[j].0,
                forall|x: u64| #[trigger] keys_of(self.parts().0).contains(x) <==> keys_of(start.parts().0).contains(x)
                    && (rows@.len() == 0 || rows@.last().0 < x),
                forall|x: u64| #[trigger] keys_of(self.parts().1).contains(x) <==> keys_of(start.parts().1).contains(x)
                    && (rows@.len() == 0 || rows@.last().0 < x),
                forall|x: u64| #[trigger] keys_of(self.parts().2).contains(x) <==> keys_of(start.parts().2).contains(x)
                    && (rows@.len() == 0 || rows@.last().0 < x),
                forall|p: (u64, A)| self.parts().0.contains(p) ==> start.parts().0.contains(p),
                forall|p: (u64, B)| self.parts().1.contains(p) ==> start.parts().1.contains(p),
                forall|p: (u64, C)| self.parts().2.contains(p) ==> start.parts().2.contains(p),
                forall|i: int|
                    0 <= i < rows@.len() ==> {
                        &&& ((#[trigger] rows@[i]).1.0 is Some <==> keys_of(start.parts().0).contains(rows@[i].0))
                        &&& (rows@[i].1.1 is Some <==> keys_of(start.parts().1).contains(rows@[i].0))
                        &&& (rows@[i].1.2 is Some <==> keys_of(start.parts().2).contains(rows@[i].0))
                        &&& (rows@[i].1.0 matches Some(v) ==> start.parts().0.contains((rows@[i].0, v)))
                        &&& (rows@[i].1.1 matches Some(v) ==> start.parts().1.contains((rows@[i].0, v)))
                        &&& (rows@[i].1.2 matches Some(v) ==> start.parts().2.contains((rows@[i].0, v)))
                    },
            decreases reach_keys(self.key_seqs()).len(),
        {
            let ghost cur = *self;
            let ghost ks = cur.key_seqs();
            match self.next() {
                None => {
                    proof {
                        lemma_reach_keys_finite(ks);
                        assert forall|x: u64| !reach_keys(ks).contains(x) by {
                            if cur.parts().0.len() == 0 {
                                assert(ks[0].len() == 0);
                            }
                            if cur.parts().1.len() == 0 {
                                assert(ks[1].len() == 0);
                            }
                            if cur.parts().2.len() == 0 {
                                assert(ks[2].len() == 0);
                            }
                        }
                        assert(reach_keys(ks) =~= Set::empty());
                    }
                    return rows;
                },
                Some((k, (a, b, c))) => {
                    proof {
                        let nks = self.key_seqs();
                        lemma_keys_of(cur.parts().0);
                        assert(ks[0].contains(ks[0][0]));
                        assert(in_any(ks, ks[0][0]));
                        assert(keys_of(cur.parts().0)[0] == cur.parts().0[0].0);
                        lemma_past_head(cur.parts().0, k);
                        lemma_keys_of(cur.parts().1);
                        assert(ks[1].contains(ks[1][0]));
                        assert(in_any(ks, ks[1][0]));
                        assert(keys_of(cur.parts().1)[0] == cur.parts().1[0].0);
                        lemma_past_head(cur.parts().1, k);
                        lemma_keys_of(cur.parts().2);
                        assert(ks[2].contains(ks[2][0]));
                        assert(in_any(ks, ks[2][0]));
                        assert(keys_of(cur.parts().2)[0] == cur.parts().2[0].0);
                        lemma_past_head(cur.parts().2, k);
                        assert(all_increasing(ks));
                        assert forall|i: int| 0 <= i < ks.len() implies #[trigger] nks[i] == (if ks[i][0] == k {
                            ks[i].drop_first()
                        } else {
                            ks[i]
                        }) by {
                            assert(nks[0] == keys_of(past_head(cur.parts().0, k)));
                            assert(nks[1] == keys_of(past_head(cur.parts().1, k)));
                            assert(nks[2] == keys_of(past_head(cur.parts().2, k)));
                        }
                        lemma_union_step(ks, nks, k);
                        lemma_reach_keys_finite(nks);
                    }
                    rows.push((k, (a, b, c)));
                },
            }
        }
    }
}

impl<A, B, C, D> KVOJoin<(Stream<A>, Stream<B>, Stream<C>, Stream<D>)> {
    /// The pairs left in each stream.
    pub closed spec fn parts(&self) -> (Seq<(u64, A)>, Seq<(u64, B)>, Seq<(u64, C)>, Seq<(u64, D)>) {
        (self.streams.0@, self.streams.1@, self.streams.2@, self.streams.3@)
    }

    /// The keys left in each stream.
    pub open spec fn key_seqs(&self) -> Seq<Seq<u64>> {
        seq![keys_of(self.parts().0), keys_of(self.parts().1), keys_of(self.parts().2), keys_of(self.parts().3)]
    }

    /// Every stream is in strictly increasing key order.
    pub open spec fn wf(&self) -> bool {
        ascending(self.parts().0) && ascending(self.parts().1) && ascending(self.parts().2) && ascending(self.parts().3)
    }

    /// The join of four streams.
    pub fn of_four(s0: Stream<A>, s1: Stream<B>, s2: Stream<C>, s3: Stream<D>) -> (j: Self)
        requires
            ascending(s0@),
            ascending(s1@),
            ascending(s2@),
            ascending(s3@),
        ensures
            j.parts() == (s0@, s1@, s2@, s3@),
            j.wf(),
    {
        KVOJoin { streams: (s0, s1, s2, s3) }
    }

    /// The next row: the least key left in any stream, with the value of
    /// each stream whose head carries it; `None` once any stream is
    /// exhausted.
    pub fn next(&mut self) -> (r: Option<(u64, (Option<A>, Option<B>, Option<C>, Option<D>))>)
        requires
            old(self).wf(),
        ensures
            final(self).wf(),
            r is None <==> old(self).parts().0.len() == 0 || old(self).parts().1.len() == 0 || old(self).parts().2.len() == 0 || old(self).parts().3.len() == 0,
            r is None ==> final(self).parts() == old(self).parts(),
            r matches Some((k, (a, b, c, d))) ==> {
                &&& least_held(old(self).key_seqs(), k)
                &&& a == head_slot(old(self).parts().0, k)
                &&& b == head_slot(old(self).parts().1, k)
                &&& c == head_slot(old(self).parts().2, k)
                &&& d == head_slot(old(self).parts().3, k)
                &&& (a is Some <==> keys_of(old(self).parts().0).contains(k))
                &&& (b is Some <==> keys_of(old(self).parts().1).contains(k))
                &&& (c is Some <==> keys_of(old(self).parts().2).contains(k))
                &&& (d is Some <==> keys_of(old(self).parts().3).contains(k))
                &&& final(self).parts().0 == past_head(old(self).parts().0, k)
                &&& final(self).parts().1 == past_head(old(self).parts().1, k)
                &&& final(self).parts().2 == past_head(old(self).parts().2, k)
                &&& final(self).parts().3 == past_head(old(self).parts().3, k)
            },
    {
        let ghost ks = self.key_seqs();
        let h0 = match self.streams.0.head_key() {
            Some(k) => k,
            None => return None,
        };
        let h1 = match self.streams.1.head_key() {
            Some(k) => k,
            None => return None,
        };
        let h2 = match self.streams.2.head_key() {
            Some(k) => k,
            None => return None,
        };
        let h3 = match self.streams.3.head_key() {
            Some(k) => k,
            None => return None,
        };
        proof {
            lemma_head(self.parts().0);
            lemma_head(self.parts().1);
            lemma_head(self.parts().2);
            lemma_head(self.parts().3);
        }
        let k = if h1 < h0 { h1 } else { h0 };
        let k = if h2 < k { h2 } else { k };
        let k = if h3 < k { h3 } else { k };
        let a = self.streams.0.take_if_key(k);
        let b = self.streams.1.take_if_key(k);
        let c = self.streams.2.take_if_key(k);
        let d = self.streams.3.take_if_key(k);
        proof {
            if h0 == k {
                assert(ks[0].contains(k));
            }
            if h1 == k {
                assert(ks[1].contains(k));
            }
            if h2 == k {
                assert(ks[2].contains(k));
            }
            if h3 == k {
                assert(ks[3].contains(k));
            }
            assert(in_any(ks, k));
            assert forall|x: u64| x < k implies !in_any(ks, x) by {
                if in_any(ks, x) {
                    let i = choose|i: int| 0 <= i < ks.len() && (#[trigger] ks[i]).contains(x);
                    assert(i == 0 || i == 1 || i == 2 || i == 3);
                }
            }
        }
        Some((k, (a, b, c, d)))
    }

    /// Every row, in order, until the join ends: one for each key that some
    /// stream holds and that lies at or below the last key of every stream,
    /// in increasing key order. A slot is present exactly where its stream
    /// holds the row's key, and then carries that stream's value.
    pub fn rows(&mut self) -> (rows: Vec<(u64, (Option<A>, Option<B>, Option<C>, Option<D>))>)
        requires
            old(self).wf(),
        ensures
            final(self).wf(),
            rows@.len() == reach_keys(old(self).key_seqs()).len(),
            forall|i: int| 0 <= i < rows@.len() ==> reach_keys(old(self).key_seqs()).contains(#[trigger] rows@[i].0),
            forall|i: int, j: int| 0 <= i < j < rows@.len() ==> rows@[i].0 < rows@[j].0,
            forall|i: int|
                0 <= i < rows@.len() ==> {
                    &&& ((#[trigger] rows@[i]).1.0 is Some <==> keys_of(old(self).parts().0).contains(rows@[i].0))
                    &&& (rows@[i].1.1 is Some <==> keys_of(old(self).parts().1).contains(rows@[i].0))
                    &&& (rows@[i].1.2 is Some <==> keys_of(old(self).parts().2).contains(rows@[i].0))
                    &&& (rows@[i].1.3 is Some <==> keys_of(old(self).parts().3).contains(rows@[i].0))
                    &&& (rows@[i].1.0 matches Some(v) ==> old(self).parts().0.contains((rows@[i].0, v)))
                    &&& (rows@[i].1.1 matches Some(v) ==> old(self).parts().1.contains((rows@[i].0, v)))
                    &&& (rows@[i].1.2 matches Some(v) ==> old(self).parts().2.contains((rows@[i].0, v)))
                    &&& (rows@[i].1.3 matches Some(v) ==> old(self).parts().3.contains((rows@[i].0, v)))
                },
    {
        let ghost start = *self;
        let mut rows: Vec<(u64, (Option<A>, Option<B>, Option<C>, Option<D>))> = Vec::new();
        proof {
            lemma_reach_keys_finite(start.key_seqs());
        }
        loop
            invariant
                self.wf(),
                start == *old(self),
                reach_keys(self.key_seqs()).finite(),
                reach_keys(start.key_seqs()).finite(),
                rows@.len() + reach_keys(self.key_seqs()).len() == reach_keys(start.key_seqs()).len(),
                forall|x: u64| reach_keys(self.key_seqs()).contains(x) ==> reach_keys(start.key_seqs()).contains(x),
                forall|i: int| 0 <= i < rows@.len() ==> reach_keys(start.key_seqs()).contains(#[trigger] rows@[i].0),
                forall|i: int, x: u64|
                    0 <= i < rows@.len() && #[trigger] reach_keys(self.key_seqs()).contains(x) ==> #[trigger] rows@[i].0 < x,
                forall|i: int, j: int| 0 <= i < j < rows@.len() ==> rows@[i].0 < rows@[j].0,
                forall|x: u64| #[trigger] keys_of(self.parts().0).contains(x) <==> keys_of(start.parts().0).contains(x)
                    && (rows@.len() == 0 || rows@.last().0 < x),
                forall|x: u64| #[trigger] keys_of(self.parts().1).contains(x) <==> keys_of(start.parts().1).contains(x)
                    && (rows@.len() == 0 || rows@.last().0 < x),
                forall|x: u64| #[trigger] keys_of(self.parts().2).contains(x) <==> keys_of(start.parts().2).contains(x)
                    && (rows@.len() == 0 || rows@.last().0 < x),
                forall|x: u64| #[trigger] keys_of(self.parts().3).contains(x) <==> keys_of(start.parts().3).contains(x)
                    && (rows@.len() == 0 || rows@.last().0 < x),
                forall|p: (u64, A)| self.parts().0.contains(p) ==> start.parts().0.contains(p),
                forall|p: (u64, B)| self.parts().1.contains(p) ==> start.parts().1.contains(p),
                forall|p: (u64, C)| self.parts().2.contains(p) ==> start.parts().2.contains(p),
                forall|p: (u64, D)| self.parts().3.contains(p) ==> start.parts().3.contains(p),
                forall|i: int|
                    0 <= i < rows@.len() ==> {
                        &&& ((#[trigger] rows@[i]).1.0 is Some <==> keys_of(start.parts().0).contains(rows@[i].0))
                        &&& (rows@[i].1.1 is Some <==> keys_of(start.parts().1).contains(rows@[i].0))
                        &&& (rows@[i].1.2 is Some <==> keys_of(start.parts().2).contains(rows@[i].0))
                        &&& (rows@[i].1.3 is Some <==> keys_of(start.parts().3).contains(rows@[i].0))
                        &&& (rows@[i].1.0 matches Some(v) ==> start.parts().0.contains((rows@[i].0, v)))
                        &&& (rows@[i].1.1 matches Some(v) ==> start.parts().1.contains((rows@[i].0, v)))
                        &&& (rows@[i].1.2 matches Some(v) ==> start.parts().2.contains((rows@[i].0, v)))
                        &&& (rows@[i].1.3 matches Some(v) ==> start.parts().3.contains((rows@[i].0, v)))
                    },
            decreases reach_keys(self.key_seqs()).len(),
        {
            let ghost cur = *self;
            let ghost ks = cur.key_seqs();
            match self.next() {
                None => {
                    proof {
                        lemma_reach_keys_finite(ks);
                        assert forall|x: u64| !reach_keys(ks).contains(x) by {
                            if cur.parts().0.len() == 0 {
                                assert(ks[0].len() == 0);
                            }
                            if cur.parts().1.len() == 0 {
                                assert(ks[1].len() == 0);
                            }
                            if cur.parts().2.len() == 0 {
                                assert(ks[2].len() == 0);
                            }
                            if cur.parts().3.len() == 0 {
                                assert(ks[3].len() == 0);
                            }
                        }
                        assert(reach_keys(ks) =~= Set::empty());
                    }
                    return rows;
                },
                Some((k, (a, b, c, d))) => {
                    proof {
                        let nks = self.key_seqs();
                        lemma_keys_of(cur.parts().0);
                        assert(ks[0].contains(ks[0][0]));
                        assert(in_any(ks, ks[0][0]));
                        assert(keys_of(cur.parts().0)[0] == cur.parts().0[0].0);
                        lemma_past_head(cur.parts().0, k);
                        lemma_keys_of(cur.parts().1);
                        assert(ks[1].contains(ks[1][0]));
                        assert(in_any(ks, ks[1][0]));
                        assert(keys_of(cur.parts().1)[0] == cur.parts().1[0].0);
                        lemma_past_head(cur.parts().1, k);
                        lemma_keys_of(cur.parts().2);
                        assert(ks[2].contains(ks[2][0]));
                        assert(in_any(ks, ks[2][0]));
                        assert(keys_of(cur.parts().2)[0] == cur.parts().2[0].0);
                        lemma_past_head(cur.parts().2, k);
                        lemma_keys_of(cur.parts().3);
                        assert(ks[3].contains(ks[3][0]));
                        assert(in_any(ks, ks[3][0]));
                        assert(keys_of(cur.parts().3)[0] == cur.parts().3[0].0);
                        lemma_past_head(cur.parts().3, k);
                        assert(all_increasing(ks));
                        assert forall|i: int| 0 <= i < ks.len() implies #[trigger] nks[i] == (if ks[i][0] == k {
                            ks[i].drop_first()
                        } else {
                            ks[i]
                        }) by {
                            assert(nks[0] == keys_of(past_head(cur.parts().0, k)));
                            assert(nks[1] == keys_of(past_head(cur.parts().1, k)));
                            assert(nks[2] == keys_of(past_head(cur.parts().2, k)));
                            assert(nks[3] == keys_of(past_head(cur.parts().3, k)));
                        }
                        lemma_union_step(ks, nks, k);
                        lemma_reach_keys_finite(nks);
                    }
                    rows.push((k, (a, b, c, d)));
                },
            }
        }
    }
}

impl<A, B, C, D, E> KVOJoin<(Stream<A>, Stream<B>, Stream<C>, Stream<D>, Stream<E>)> {
    /// The pairs left in each stream.
    pub closed spec fn parts(&self) -> (Seq<(u64, A)>, Seq<(u64, B)>, Seq<(u64, C)>, Seq<(u64, D)>, Seq<(u64, E)>) {
        (self.streams.0@, self.streams.1@, self.streams.2@, self.streams.3@, self.streams.4@)
    }

    /// The keys left in each stream.
    pub open spec fn key_seqs(&self) -> Seq<Seq<u64>> {
        seq![keys_of(self.parts().0), keys_of(self.parts().1), keys_of(self.parts().2), keys_of(self.parts().3), keys_of(self.parts().4)]
    }

    /// Every stream is in strictly increasing key order.
    pub open spec fn wf(&self) -> bool {
        ascending(self.parts().0) && ascending(self.parts().1) && ascending(self.parts().2) && ascending(self.parts().3) && ascending(self.parts().4)
    }

    /// The join of five streams.
    pub fn of_five(s0: Stream<A>, s1: Stream<B>, s2: Stream<C>, s3: Stream<D>, s4: Stream<E>) -> (j: Self)
        requires
            ascending(s0@),
            ascending(s1@),
            ascending(s2@),
            ascending(s3@),
            ascending(s4@),
        ensures
            j.parts() == (s0@, s1@, s2@, s3@, s4@),
            j.wf(),
    {
        KVOJoin { streams: (s0, s1, s2, s3, s4) }
    }

    /// The next row: the least key left in any stream, with the value of
    /// each stream whose head carries it; `None` once any stream is
    /// exhausted.
    pub fn next(&mut self) -> (r: Option<(u64, (Option<A>, Option<B>, Option<C>, Option<D>, Option<E>))>)
        requires
            old(self).wf(),
        ensures
            final(self).wf(),
            r is None <==> old(self).parts().0.len() == 0 || old(self).parts().1.len() == 0 || old(self).parts().2.len() == 0 || old(self).parts().3.len() == 0 || old(self).parts().4.len() == 0,
            r is None ==> final(self).parts() == old(self).parts(),
            r matches Some((k, (a, b, c, d, e))) ==> {
                &&& least_held(old(self).key_seqs(), k)
                &&& a == head_slot(old(self).parts().0, k)
                &&& b == head_slot(old(self).parts().1, k)
                &&& c == head_slot(old(self).parts().2, k)
                &&& d == head_slot(old(self).parts().3, k)
                &&& e == head_slot(old(self).parts().4, k)
                &&& (a is Some <==> keys_of(old(self).parts().0).contains(k))
                &&& (b is Some <==> keys_of(old(self).parts().1).contains(k))
                &&& (c is Some <==> keys_of(old(self).parts().2).contains(k))
                &&& (d is Some <==> keys_of(old(self).parts().3).contains(k))
                &&& (e is Some <==> keys_of(old(self).parts().4).contains(k))
                &&& final(self).parts().0 == past_head(old(self).parts().0, k)
                &&& final(self).parts().1 == past_head(old(self).parts().1, k)
                &&& final(self).parts().2 == past_head(old(self).parts().2, k)
                &&& final(self).parts().3 == past_head(old(self).parts().3, k)
                &&& final(self).parts().4 == past_head(old(self).parts().4, k)
            },
    {
        let ghost ks = self.key_seqs();
        let h0 = match self.streams.0.head_key() {
            Some(k) => k,
            None => return None,
        };
        let h1 = match self.streams.1.head_key() {
            Some(k) => k,
            None => return None,
        };
        let h2 = match self.streams.2.head_key() {
            Some(k) => k,
            None => return None,
        };
        let h3 = match self.streams.3.head_key() {
            Some(k) => k,
            None => return None,
        };
        let h4 = match self.streams.4.head_key() {
            Some(k) => k,
            None => return None,
        };
        proof {
            lemma_head(self.parts().0);
            lemma_head(self.parts().1);
            lemma_head(self.parts().2);
            lemma_head(self.parts().3);
            lemma_head(self.parts().4);
        }
        let k = if h1 < h0 { h1 } else { h0 };
        let k = if h2 < k { h2 } else { k };
        let k = if h3 < k { h3 } else { k };
        let k = if h4 < k { h4 } else { k };
        let a = self.streams.0.take_if_key(k);
        let b = self.streams.1.take_if_key(k);
        let c = self.streams.2.take_if_key(k);
        let d = self.streams.3.take_if_key(k);
        let e = self.streams.4.take_if_key(k);
        proof {
            if h0 == k {
                assert(ks[0].contains(k));
            }
            if h1 == k {
                assert(ks[1].contains(k));
            }
            if h2 == k {
                assert(ks[2].contains(k));
            }
            if h3 == k {
                assert(ks[3].contains(k));
            }
            if h4 == k {
                assert(ks[4].contains(k));
            }
            assert(in_any(ks, k));
            assert forall|x: u64| x < k implies !in_any(ks, x) by {
                if in_any(ks, x) {
                    let i = choose|i: int| 0 <= i < ks.len() && (#[trigger] ks[i]).contains(x);
                    assert(i == 0 || i == 1 || i == 2 || i == 3 || i == 4);
                }
            }
        }
        Some((k, (a, b, c, d, e)))
    }

    /// Every row, in order, until the join ends: one for each key that some
    /// stream holds and that lies at or below the last key of every stream,
    /// in increasing key order. A slot is present exactly where its stream
    /// holds the row's key, and then carries that stream's value.
    pub fn rows(&mut self) -> (rows: Vec<(u64, (Option<A>, Option<B>, Option<C>, Option<D>, Option<E>))>)
        requires
            old(self).wf(),
        ensures
            final(self).wf(),
            rows@.len() == reach_keys(old(self).key_seqs()).len(),
            forall|i: int| 0 <= i < rows@.len() ==> reach_keys(old(self).key_seqs()).contains(#[trigger] rows@[i].0),
            forall|i: int, j: int| 0 <= i < j < rows@.len() ==> rows@[i].0 < rows@[j].0,
            forall|i: int|
                0 <= i < rows@.len() ==> {
                    &&& ((#[trigger] rows@[i]).1.0 is Some <==> keys_of(old(self).parts().0).contains(rows@[i].0))
                    &&& (rows@[i].1.1 is Some <==> keys_of(old(self).parts().1).contains(rows@[i].0))
                    &&& (rows@[i].1.2 is Some <==> keys_of(old(self).parts().2).contains(rows@[i].0))
                    &&& (rows@[i].1.3 is Some <==> keys_of(old(self).parts().3).contains(rows@[i].0))
                    &&& (rows@[i].1.4 is Some <==> keys_of(old(self).parts().4).contains(rows@[i].0))
                    &&& (rows@[i].1.0 matches Some(v) ==> old(self).parts().0.contains((rows@[i].0, v)))
                    &&& (rows@[i].1.1 matches Some(v) ==> old(self).parts().1.contains((rows@[i].0, v)))
                    &&& (rows@[i].1.2 matches Some(v) ==> old(self).parts().2.contains((rows@[i].0, v)))
                    &&& (rows@[i].1.3 matches Some(v) ==> old(self).parts().3.contains((rows@[i].0, v)))
                    &&& (rows@[i].1.4 matches Some(v) ==> old(self).parts().4.contains((rows@[i].0, v)))
                },
    {
        let ghost start = *self;
        let mut rows: Vec<(u64, (Option<A>, Option<B>, Option<C>, Option<D>, Option<E>))> = Vec::new();
        proof {
            lemma_reach_keys_finite(start.key_seqs());
        }
        loop
            invariant
                self.wf(),
                start == *old(self),
                reach_keys(self.key_seqs()).finite(),
                reach_keys(start.key_seqs()).finite(),
                rows@.len() + reach_keys(self.key_seqs()).len() == reach_keys(start.key_seqs()).len(),
                forall|x: u64| reach_keys(self.key_seqs()).contains(x) ==> reach_keys(start.key_seqs()).contains(x),
                forall|i: int| 0 <= i < rows@.len() ==> reach_keys(start.key_seqs()).contains(#[trigger] rows@[i].0),
                forall|i: int, x: u64|
                    0 <= i < rows@.len() && #[trigger] reach_keys(self.key_seqs()).contains(x) ==> #[trigger] rows@[i].0 < x,
                forall|i: int, j: int| 0 <= i < j < rows@.len() ==> rows@[i].0 < rows@[j].0,
                forall|x: u64| #[trigger] keys_of(self.parts().0).contains(x) <==> keys_of(start.parts().0).contains(x)
                    && (rows@.len() == 0 || rows@.last().0 < x),
                forall|x: u64| #[trigger] keys_of(self.parts().1).contains(x) <==> keys_of(start.parts().1).contains(x)
                    && (rows@.len() == 0 || rows@.last().0 < x),
                forall|x: u64| #[trigger] keys_of(self.parts().2).contains(x) <==> keys_of(start.parts().2).contains(x)
                    && (rows@.len() == 0 || rows@.last().0 < x),
                forall|x: u64| #[trigger] keys_of(self.parts().3).contains(x) <==> keys_of(start.parts().3).contains(x)
                    && (rows@.len() == 0 || rows@.last().0 < x),
                forall|x: u64| #[trigger] keys_of(self.parts().4).contains(x) <==> keys_of(start.parts().4).contains(x)
                    && (rows@.len() == 0 || rows@.last().0 < x),
                forall|p: (u64, A)| self.parts().0.contains(p) ==> start.parts().0.contains(p),
                forall|p: (u64, B)| self.parts().1.contains(p) ==> start.parts().1.contains(p),
                forall|p: (u64, C)| self.parts().2.contains(p) ==> start.parts().2.contains(p),
                forall|p: (u64, D)| self.parts().3.contains(p) ==> start.parts().3.contains(p),
                forall|p: (u64, E)| self.parts().4.contains(p) ==> start.parts().4.contains(p),
                forall|i: int|
                    0 <= i < rows@.len() ==> {
                        &&& ((#[trigger] rows@[i]).1.0 is Some <==> keys_of(start.parts().0).contains(rows@[i].0))
                        &&& (rows@[i].1.1 is Some <==> keys_of(start.parts().1).contains(rows@[i].0))
                        &&& (rows@[i].1.2 is Some <==> keys_of(start.parts().2).contains(rows@[i].0))
                        &&& (rows@[i].1.3 is Some <==> keys_of(start.parts().3).contains(rows@[i].0))
                        &&& (rows@[i].1.4 is Some <==> keys_of(start.parts().4).contains(rows@[i].0))
                        &&& (rows@[i].1.0 matches Some(v) ==> start.parts().0.contains((rows@[i].0, v)))
                        &&& (rows@[i].1.1 matches Some(v) ==> start.parts().1.contains((rows@[i].0, v)))
                        &&& (rows@[i].1.2 matches Some(v) ==> start.parts().2.contains((rows@[i].0, v)))
                        &&& (rows@[i].1.3 matches Some(v) ==> start.parts().3.contains((rows@[i].0, v)))
                        &&& (rows@[i].1.4 matches Some(v) ==> start.parts().4.contains((rows@[i].0, v)))
                    },
            decreases reach_keys(self.key_seqs()).len(),
        {
            let ghost cur = *self;
            let ghost ks = cur.key_seqs();
            match self.next() {
                None => {
                    proof {
                        lemma_reach_keys_finite(ks);
                        assert forall|x: u64| !reach_keys(ks).contains(x) by {
                            if cur.parts().0.len() == 0 {
                                assert(ks[0].len() == 0);
                            }
                            if cur.parts().1.len() == 0 {
                                assert(ks[1].len() == 0);
                            }
                            if cur.parts().2.len() == 0 {
                                assert(ks[2].len() == 0);
                            }
                            if cur.parts().3.len() == 0 {
                                assert(ks[3].len() == 0);
                            }
                            if cur.parts().4.len() == 0 {
                                assert(ks[4].len() == 0);
                            }
                        }
                        assert(reach_keys(ks) =~= Set::empty());
                    }
                    return rows;
                },
                Some((k, (a, b, c, d, e))) => {
                    proof {
                        let nks = self.key_seqs();
                        lemma_keys_of(cur.parts().0);
                        assert(ks[0].contains(ks[0][0]));
                        assert(in_any(ks, ks[0][0]));
                        assert(keys_of(cur.parts().0)[0] == cur.parts().0[0].0);
                        lemma_past_head(cur.parts().0, k);
                        lemma_keys_of(cur.parts().1);
                        assert(ks[1].contains(ks[1][0]));
                        assert(in_any(ks, ks[1][0]));
                        assert(keys_of(cur.parts().1)[0] == cur.parts().1[0].0);
                        lemma_past_head(cur.parts().1, k);
                        lemma_keys_of(cur.parts().2);
                        assert(ks[2].contains(ks[2][0]));
                        assert(in_any(ks, ks[2][0]));
                        assert(keys_of(cur.parts().2)[0] == cur.parts().2[0].0);
                        lemma_past_head(cur.parts().2, k);
                        lemma_keys_of(cur.parts().3);
                        assert(ks[3].contains(ks[3][0]));
                        assert(in_any(ks, ks[3][0]));
                        assert(keys_of(cur.parts().3)[0] == cur.parts().3[0].0);
                        lemma_past_head(cur.parts().3, k);
                        lemma_keys_of(cur.parts().4);
                        assert(ks[4].contains(ks[4][0]));
                        assert(in_any(ks, ks[4][0]));
                        assert(keys_of(cur.parts().4)[0] == cur.parts().4[0].0);
                        lemma_past_head(cur.parts().4, k);
                        assert(all_increasing(ks));
                        assert forall|i: int| 0 <= i < ks.len() implies #[trigger] nks[i] == (if ks[i][0] == k {
                            ks[i].drop_first()
                        } else {
                            ks[i]
                        }) by {
                            assert(nks[0] == keys_of(past_head(cur.parts().0, k)));
                            assert(nks[1] == keys_of(past_head(cur.parts().1, k)));
                            assert(nks[2] == keys_of(past_head(cur.parts().2, k)));
                            assert(nks[3] == keys_of(past_head(cur.parts().3, k)));
                            assert(nks[4] == keys_of(past_head(cur.parts().4, k)));
                        }
                        lemma_union_step(ks, nks, k);
                        lemma_reach_keys_finite(nks);
                    }
                    rows.push((k, (a, b, c, d, e)));
                },
            }
        }
    }
}

impl<A, B, C, D, E, F> KVOJoin<(Stream<A>, Stream<B>, Stream<C>, Stream<D>, Stream<E>, Stream<F>)> {
    /// The pairs left in each stream.
    pub closed spec fn parts(&self) -> (Seq<(u64, A)>, Seq<(u64, B)>, Seq<(u64, C)>, Seq<(u64, D)>, Seq<(u64, E)>, Seq<(u64, F)>) {
        (self.streams.0@, self.streams.1@, self.streams.2@, self.streams.3@, self.streams.4@, self.streams.5@)
    }

    /// The keys left in each stream.
    pub open spec fn key_seqs(&self) -> Seq<Seq<u64>> {
        seq![keys_of(self.parts().0), keys_of(self.parts().1), keys_of(self.parts().2), keys_of(self.parts().3), keys_of(self.parts().4), keys_of(self.parts().5)]
    }

    /// Every stream is in strictly increasing key order.
    pub open spec fn wf(&self) -> bool {
        ascending(self.parts().0) && ascending(self.parts().1) && ascending(self.parts().2) && ascending(self.parts().3) && ascending(self.parts().4) && ascending(self.parts().5)
    }

    /// The join of six streams.
    pub fn of_six(s0: Stream<A>, s1: Stream<B>, s2: Stream<C>, s3: Stream<D>, s4: Stream<E>, s5: Stream<F>) -> (j: Self)
        requires
            ascending(s0@),
            ascending(s1@),
            ascending(s2@),
            ascending(s3@),
            ascending(s4@),
            ascending(s5@),
        ensures
            j.parts() == (s0@, s1@, s2@, s3@, s4@, s5@),
            j.wf(),
    {
        KVOJoin { streams: (s0, s1, s2, s3, s4, s5) }
    }

    /// The next row: the least key left in any stream, with the value of
    /// each stream whose head carries it; `None` once any stream is
    /// exhausted.
    #[verifier::rlimit(100)]
    pub fn next(&mut self) -> (r: Option<(u64, (Option<A>, Option<B>, Option<C>, Option<D>, Option<E>, Option<F>))>)
        requires
            old(self).wf(),
        ensures
            final(self).wf(),
            r is None <==> old(self).parts().0.len() == 0 || old(self).parts().1.len() == 0 || old(self).parts().2.len() == 0 || old(self).parts().3.len() == 0 || old(self).parts().4.len() == 0 || old(self).parts().5.len() == 0,
            r is None ==> final(self).parts() == old(self).parts(),
            r matches Some((k, (a, b, c, d, e, f))) ==> {
                &&& least_held(old(self).key_seqs(), k)
                &&& a == head_slot(old(self).parts().0, k)
                &&& b == head_slot(old(self).parts().1, k)
                &&& c == head_slot(old(self).parts().2, k)
                &&& d == head_slot(old(self).parts().3, k)
                &&& e == head_slot(old(self).parts().4, k)
                &&& f == head_slot(old(self).parts().5, k)
                &&& (a is Some <==> keys_of(old(self).parts().0).contains(k))
                &&& (b is Some <==> keys_of(old(self).parts().1).contains(k))
                &&& (c is Some <==> keys_of(old(self).parts().2).contains(k))
                &&& (d is Some <==> keys_of(old(self).parts().3).contains(k))
                &&& (e is Some <==> keys_of(old(self).parts().4).contains(k))
                &&& (f is Some <==> keys_of(old(self).parts().5).contains(k))
                &&& final(self).parts().0 == past_head(old(self).parts().0, k)
                &&& final(self).parts().1 == past_head(old(self).parts().1, k)
                &&& final(self).parts().2 == past_head(old(self).parts().2, k)
                &&& final(self).parts().3 == past_head(old(self).parts().3, k)
                &&& final(self).parts().4 == past_head(old(self).parts().4, k)
                &&& final(self).parts().5 == past_head(old(self).parts().5, k)
            },
    {
        let ghost ks = self.key_seqs();
        let h0 = match self.streams.0.head_key() {
            Some(k) => k,
            None => return None,
        };
        let h1 = match self.streams.1.head_key() {
            Some(k) => k,
            None => return None,
        };
        let h2 = match self.streams.2.head_key() {
            Some(k) => k,
            None => return None,
        };
        let h3 = match self.streams.3.head_key() {
            Some(k) => k,
            None => return None,
        };
        let h4 = match self.streams.4.head_key() {
            Some(k) => k,
            None => return None,
        };
        let h5 = match self.streams.5.head_key() {
            Some(k) => k,
            None => return None,
        };
        proof {
            lemma_head(self.parts().0);
            lemma_head(self.parts().1);
            lemma_head(self.parts().2);
            lemma_head(self.parts().3);
            lemma_head(self.parts().4);
            lemma_head(self.parts().5);
        }
        let k = if h1 < h0 { h1 } else { h0 };
        let k = if h2 < k { h2 } else { k };
        let k = if h3 < k { h3 } else { k };
        let k = if h4 < k { h4 } else { k };
        let k = if h5 < k { h5 } else { k };
        let a = self.streams.0.take_if_key(k);
        let b = self.streams.1.take_if_key(k);
        let c = self.streams.2.take_if_key(k);
        let d = self.streams.3.take_if_key(k);
        let e = self.streams.4.take_if_key(k);
        let f = self.streams.5.take_if_key(k);
        proof {
            if h0 == k {
                assert(ks[0].contains(k));
            }
            if h1 == k {
                assert(ks[1].contains(k));
            }
            if h2 == k {
                assert(ks[2].contains(k));
            }
            if h3 == k {
                assert(ks[3].contains(k));
            }
            if h4 == k {
                assert(ks[4].contains(k));
            }
            if h5 == k {
                assert(ks[5].contains(k));
            }
            assert(in_any(ks, k));
            assert forall|x: u64| x < k implies !in_any(ks, x) by {
                if in_any(ks, x) {
                    let i = choose|i: int| 0 <= i < ks.len() && (#[trigger] ks[i]).contains(x);
                    assert(i == 0 || i == 1 || i == 2 || i == 3 || i == 4 || i == 5);
                }
            }
        }
        Some((k, (a, b, c, d, e, f)))
    }

    /// Every row, in order, until the join ends: one for each key that some
    /// stream holds and that lies at or below the last key of every stream,
    /// in increasing key order. A slot is present exactly where its stream
    /// holds the row's key, and then carries that stream's value.
    #[verifier::rlimit(100)]
    pub fn rows(&mut self) -> (rows: Vec<(u64, (Option<A>, Option<B>, Option<C>, Option<D>, Option<E>, Option<F>))>)
        requires
            old(self).wf(),
        ensures
            final(self).wf(),
            rows@.len() == reach_keys(old(self).key_seqs()).len(),
            forall|i: int| 0 <= i < rows@.len() ==> reach_keys(old(self).key_seqs()).contains(#[trigger] rows@[i].0),
            forall|i: int, j: int| 0 <= i < j < rows@.len() ==> rows@[i].0 < rows@[j].0,
            forall|i: int|
                0 <= i < rows@.len() ==> {
                    &&& ((#[trigger] rows@[i]).1.0 is Some <==> keys_of(old(self).parts().0).contains(rows@[i].0))
                    &&& (rows@[i].1.1 is Some <==> keys_of(old(self).parts().1).contains(rows@[i].0))
                    &&& (rows@[i].1.2 is Some <==> keys_of(old(self).parts().2).contains(rows@[i].0))
                    &&& (rows@[i].1.3 is Some <==> keys_of(old(self).parts().3).contains(rows@[i].0))
                    &&& (rows@[i].1.4 is Some <==> keys_of(old(self).parts().4).contains(rows@[i].0))
                    &&& (rows@[i].1.5 is Some <==> keys_of(old(self).parts().5).contains(rows@[i].0))
                    &&& (rows@[i].1.0 matches Some(v) ==> old(self).parts().0.contains((rows@[i].0, v)))
                    &&& (rows@[i].1.1 matches Some(v) ==> old(self).parts().1.contains((rows@[i].0, v)))
                    &&& (rows@[i].1.2 matches Some(v) ==> old(self).parts().2.contains((rows@[i].0, v)))
                    &&& (rows@[i].1.3 matches Some(v) ==> old(self).parts().3.contains((rows@[i].0, v)))
                    &&& (rows@[i].1.4 matches Some(v) ==> old(self).parts().4.contains((rows@[i].0, v)))
                    &&& (rows@[i].1.5 matches Some(v) ==> old(self).parts().5.contains((rows@[i].0, v)))
                },
    {
        let ghost start = *self;
        let mut rows: Vec<(u64, (Option<A>, Option<B>, Option<C>, Option<D>, Option<E>, Option<F>))> = Vec::new();
        proof {
            lemma_reach_keys_finite(start.key_seqs());
        }
        loop
            invariant
                self.wf(),
                start == *old(self),
                reach_keys(self.key_seqs()).finite(),
                reach_keys(start.key_seqs()).finite(),
                rows@.len() + reach_keys(self.key_seqs()).len() == reach_keys(start.key_seqs()).len(),
                forall|x: u64| reach_keys(self.key_seqs()).contains(x) ==> reach_keys(start.key_seqs()).contains(x),
                forall|i: int| 0 <= i < rows@.len() ==> reach_keys(start.key_seqs()).contains(#[trigger] rows@[i].0),
                forall|i: int, x: u64|
                    0 <= i < rows@.len() && #[trigger] reach_keys(self.key_seqs()).contains(x) ==> #[trigger] rows@[i].0 < x,
                forall|i: int, j: int| 0 <= i < j < rows@.len() ==> rows@[i].0 < rows@[j].0,
                forall|x: u64| #[trigger] keys_of(self.parts().0).contains(x) <==> keys_of(start.parts().0).contains(x)
                    && (rows@.len() == 0 || rows@.last().0 < x),
                forall|x: u64| #[trigger] keys_of(self.parts().1).contains(x) <==> keys_of(start.parts().1).contains(x)
                    && (rows@.len() == 0 || rows@.last().0 < x),
                forall|x: u64| #[trigger] keys_of(self.parts().2).contains(x) <==> keys_of(start.parts().2).contains(x)
                    && (rows@.len() == 0 || rows@.last().0 < x),
                forall|x: u64| #[trigger] keys_of(self.parts().3).contains(x) <==> keys_of(start.parts().3).contains(x)
                    && (rows@.len() == 0 || rows@.last().0 < x),
                forall|x: u64| #[trigger] keys_of(self.parts().4).contains(x) <==> keys_of(start.parts().4).contains(x)
                    && (rows@.len() == 0 || rows@.last().0 < x),
                forall|x: u64| #[trigger] keys_of(self.parts().5).contains(x) <==> keys_of(start.parts().5).contains(x)
                    && (rows@.len() == 0 || rows@.last().0 < x),
                forall|p: (u64, A)| self.parts().0.contains(p) ==> start.parts().0.contains(p),
                forall|p: (u64, B)| self.parts().1.contains(p) ==> start.parts().1.contains(p),
                forall|p: (u64, C)| self.parts().2.contains(p) ==> start.parts().2.contains(p),
                forall|p: (u64, D)| self.parts().3.contains(p) ==> start.parts().3.contains(p),
                forall|p: (u64, E)| self.parts().4.contains(p) ==> start.parts().4.contains(p),
                forall|p: (u64, F)| self.parts().5.contains(p) ==> start.parts().5.contains(p),
                forall|i: int|
                    0 <= i < rows@.len() ==> {
                        &&& ((#[trigger] rows@[i]).1.0 is Some <==> keys_of(start.parts().0).contains(rows@[i].0))
                        &&& (rows@[i].1.1 is Some <==> keys_of(start.parts().1).contains(rows@[i].0))
                        &&& (rows@[i].1.2 is Some <==> keys_of(start.parts().2).contains(rows@[i].0))
                        &&& (rows@[i].1.3 is Some <==> keys_of(start.parts().3).contains(rows@[i].0))
                        &&& (rows@[i].1.4 is Some <==> keys_of(start.parts().4).contains(rows@[i].0))
                        &&& (rows@[i].1.5 is Some <==> keys_of(start.parts().5).contains(rows@[i].0))
                        &&& (rows@[i].1.0 matches Some(v) ==> start.parts().0.contains((rows@[i].0, v)))
                        &&& (rows@[i].1.1 matches Some(v) ==> start.parts().1.contains((rows@[i].0, v)))
                        &&& (rows@[i].1.2 matches Some(v) ==> start.parts().2.contains((rows@[i].0, v)))
                        &&& (rows@[i].1.3 matches Some(v) ==> start.parts().3.contains((rows@[i].0, v)))
                        &&& (rows@[i].1.4 matches Some(v) ==> start.parts().4.contains((rows@[i].0, v)))
                        &&& (rows@[i].1.5 matches Some(v) ==> start.parts().5.contains((rows@[i].0, v)))
                    },
            decreases reach_keys(self.key_seqs()).len(),
        {
            let ghost cur = *self;
            let ghost ks = cur.key_seqs();
            match self.next() {
                None => {
                    proof {
                        lemma_reach_keys_finite(ks);
                        assert forall|x: u64| !reach_keys(ks).contains(x) by {
                            if cur.parts().0.len() == 0 {
                                assert(ks[0].len() == 0);
                            }
                            if cur.parts().1.len() == 0 {
                                assert(ks[1].len() == 0);
                            }
                            if cur.parts().2.len() == 0 {
                                assert(ks[2].len() == 0);
                            }
                            if cur.parts().3.len() == 0 {
                                assert(ks[3].len() == 0);
                            }
                            if cur.parts().4.len() == 0 {
                                assert(ks[4].len() == 0);
                            }
                            if cur.parts().5.len() == 0 {
                                assert(ks[5].len() == 0);
                            }
                        }
                        assert(reach_keys(ks) =~= Set::empty());
                    }
                    return rows;
                },
                Some((k, (a, b, c, d, e, f))) => {
                    proof {
                        let nks = self.key_seqs();
                        lemma_keys_of(cur.parts().0);
                        assert(ks[0].contains(ks[0][0]));
                        assert(in_any(ks, ks[0][0]));
                        assert(keys_of(cur.parts().0)[0] == cur.parts().0[0].0);
                        lemma_past_head(cur.parts().0, k);
                        lemma_keys_of(cur.parts().1);
                        assert(ks[1].contains(ks[1][0]));
                        assert(in_any(ks, ks[1][0]));
                        assert(keys_of(cur.parts().1)[0] == cur.parts().1[0].0);
                        lemma_past_head(cur.parts().1, k);
                        lemma_keys_of(cur.parts().2);
                        assert(ks[2].contains(ks[2][0]));
                        assert(in_any(ks, ks[2][0]));
                        assert(keys_of(cur.parts().2)[0] == cur.parts().2[0].0);
                        lemma_past_head(cur.parts().2, k);
                        lemma_keys_of(cur.parts().3);
                        assert(ks[3].contains(ks[3][0]));
                        assert(in_any(ks, ks[3][0]));
                        assert(keys_of(cur.parts().3)[0] == cur.parts().3[0].0);
                        lemma_past_head(cur.parts().3, k);
                        lemma_keys_of(cur.parts().4);
                        assert(ks[4].contains(ks[4][0]));
                        assert(in_any(ks, ks[4][0]));
                        assert(keys_of(cur.parts().4)[0] == cur.parts().4[0].0);
                        lemma_past_head(cur.parts().4, k);
                        lemma_keys_of(cur.parts().5);
                        assert(ks[5].contains(ks[5][0]));
                        assert(in_any(ks, ks[5][0]));
                        assert(keys_of(cur.parts().5)[0] == cur.parts().5[0].0);
                        lemma_past_head(cur.parts().5, k);
                        assert(all_increasing(ks));
                        assert forall|i: int| 0 <= i < ks.len() implies #[trigger] nks[i] == (if ks[i][0] == k {
                            ks[i].drop_first()
                        } else {
                            ks[i]
                        }) by {
                            assert(nks[0] == keys_of(past_head(cur.parts().0, k)));
                            assert(nks[1] == keys_of(past_head(cur.parts().1, k)));
                            assert(nks[2] == keys_of(past_head(cur.parts().2, k)));
                            assert(nks[3] == keys_of(past_head(cur.parts().3, k)));
                            assert(nks[4] == keys_of(past_head(cur.parts().4, k)));
                            assert(nks[5] == keys_of(past_head(cur.parts().5, k)));
                        }
                        lemma_union_step(ks, nks, k);
                        lemma_reach_keys_finite(nks);
                    }
                    rows.push((k, (a, b, c, d, e, f)));
                },
            }
        }
    }
}

impl<A, B, C, D, E, F, G> KVOJoin<(Stream<A>, Stream<B>, Stream<C>, Stream<D>, Stream<E>, Stream<F>, Stream<G>)> {
    /// The pairs left in each stream.
    pub closed spec fn parts(&self) -> (Seq<(u64, A)>, Seq<(u64, B)>, Seq<(u64, C)>, Seq<(u64, D)>, Seq<(u64, E)>, Seq<(u64, F)>, Seq<(u64, G)>) {
        (self.streams.0@, self.streams.1@, self.streams.2@, self.streams.3@, self.streams.4@, self.streams.5@, self.streams.6@)
    }

    /// The keys left in each stream.
    pub open spec fn key_seqs(&self) -> Seq<Seq<u64>> {
        seq![keys_of(self.parts().0), keys_of(self.parts().1), keys_of(self.parts().2), keys_of(self.parts().3), keys_of(self.parts().4), keys_of(self.parts().5), keys_of(self.parts().6)]
    }

    /// Every stream is in strictly increasing key order.
    pub open spec fn wf(&self) -> bool {
        ascending(self.parts().0) && ascending(self.parts().1) && ascending(self.parts().2) && ascending(self.parts().3) && ascending(self.parts().4) && ascending(self.parts().5) && ascending(self.parts().6)
    }

    /// The join of seven streams.
    pub fn of_seven(s0: Stream<A>, s1: Stream<B>, s2: Stream<C>, s3: Stream<D>, s4: Stream<E>, s5: Stream<F>, s6: Stream<G>) -> (j: Self)
        requires
            ascending(s0@),
            ascending(s1@),
            ascending(s2@),
            ascending(s3@),
            ascending(s4@),
            ascending(s5@),
            ascending(s6@),
        ensures
            j.parts() == (s0@, s1@, s2@, s3@, s4@, s5@, s6@),
            j.wf(),
    {
        KVOJoin { streams: (s0, s1, s2, s3, s4, s5, s6) }
    }

    /// The next row: the least key left in any stream, with the value of
    /// each stream whose head carries it; `None` once any stream is
    /// exhausted.
    #[verifier::rlimit(100)]
    pub fn next(&mut self) -> (r: Option<(u64, (Option<A>, Option<B>, Option<C>, Option<D>, Option<E>, Option<F>, Option<G>))>)
        requires
            old(self).wf(),
        ensures
            final(self).wf(),
            r is None <==> old(self).parts().0.len() == 0 || old(self).parts().1.len() == 0 || old(self).parts().2.len() == 0 || old(self).parts().3.len() == 0 || old(self).parts().4.len() == 0 || old(self).parts().5.len() == 0 || old(self).parts().6.len() == 0,
            r is None ==> final(self).parts() == old(self).parts(),
            r matches Some((k, (a, b, c, d, e, f, g))) ==> {
                &&& least_held(old(self).key_seqs(), k)
                &&& a == head_slot(old(self).parts().0, k)
                &&& b == head_slot(old(self).parts().1, k)
                &&& c == head_slot(old(self).parts().2, k)
                &&& d == head_slot(old(self).parts().3, k)
                &&& e == head_slot(old(self).parts().4, k)
                &&& f == head_slot(old(self).parts().5, k)
                &&& g == head_slot(old(self).parts().6, k)
                &&& (a is Some <==> keys_of(old(self).parts().0).contains(k))
                &&& (b is Some <==> keys_of(old(self).parts().1).contains(k))
                &&& (c is Some <==> keys_of(old(self).parts().2).contains(k))
                &&& (d is Some <==> keys_of(old(self).parts().3).contains(k))
                &&& (e is Some <==> keys_of(old(self).parts().4).contains(k))
                &&& (f is Some <==> keys_of(old(self).parts().5).contains(k))
                &&& (g is Some <==> keys_of(old(self).parts().6).contains(k))
                &&& final(self).parts().0 == past_head(old(self).parts().0, k)
                &&& final(self).parts().1 == past_head(old(self).parts().1, k)
                &&& final(self).parts().2 == past_head(old(self).parts().2, k)
                &&& final(self).parts().3 == past_head(old(self).parts().3, k)
                &&& final(self).parts().4 == past_head(old(self).parts().4, k)
                &&& final(self).parts().5 == past_head(old(self).parts().5, k)
                &&& final(self).parts().6 == past_head(old(self).parts().6, k)
            },
    {
        let ghost ks = self.key_seqs();
        let h0 = match self.streams.0.head_key() {
            Some(k) => k,
            None => return None,
        };
        let h1 = match self.streams.1.head_key() {
            Some(k) => k,
            None => return None,
        };
        let h2 = match self.streams.2.head_key() {
            Some(k) => k,
            None => return None,
        };
        let h3 = match self.streams.3.head_key() {
            Some(k) => k,
            None => return None,
        };
        let h4 = match self.streams.4.head_key() {
            Some(k) => k,
            None => return None,
        };
        let h5 = match self.streams.5.head_key() {
            Some(k) => k,
            None => return None,
        };
        let h6 = match self.streams.6.head_key() {
            Some(k) => k,
            None => return None,
        };
        proof {
            lemma_head(self.parts().0);
            lemma_head(self.parts().1);
            lemma_head(self.parts().2);
            lemma_head(self.parts().3);
            lemma_head(self.parts().4);
            lemma_head(self.parts().5);
            lemma_head(self.parts().6);
        }
        let k = if h1 < h0 { h1 } else { h0 };
        let k = if h2 < k { h2 } else { k };
        let k = if h3 < k { h3 } else { k };
        let k = if h4 < k { h4 } else { k };
        let k = if h5 < k { h5 } else { k };
        let k = if h6 < k { h6 } else { k };
        let a = self.streams.0.take_if_key(k);
        let b = self.streams.1.take_if_key(k);
        let c = self.streams.2.take_if_key(k);
        let d = self.streams.3.take_if_key(k);
        let e = self.streams.4.take_if_key(k);
        let f = self.streams.5.take_if_key(k);
        let g = self.streams.6.take_if_key(k);
        proof {
            if h0 == k {
                assert(ks[0].contains(k));
            }
            if h1 == k {
                assert(ks[1].contains(k));
            }
            if h2 == k {
                assert(ks[2].contains(k));
            }
            if h3 == k {
                assert(ks[3].contains(k));
            }
            if h4 == k {
                assert(ks[4].contains(k));
            }
            if h5 == k {
                assert(ks[5].contains(k));
            }
            if h6 == k {
                assert(ks[6].contains(k));
            }
            assert(in_any(ks, k));
            assert forall|x: u64| x < k implies !in_any(ks, x) by {
                if in_any(ks, x) {
                    let i = choose|i: int| 0 <= i < ks.len() && (#[trigger] ks[i]).contains(x);
                    assert(i == 0 || i == 1 || i == 2 || i == 3 || i == 4 || i == 5 || i == 6);
                }
            }
        }
        Some((k, (a, b, c, d, e, f, g)))
    }

    /// Every row, in order, until the join ends: one for each key that some
    /// stream holds and that lies at or below the last key of every stream,
    /// in increasing key order. A slot is present exactly where its stream
    /// holds the row's key, and then carries that stream's value.
    #[verifier::rlimit(100)]
    pub fn rows(&mut self) -> (rows: Vec<(u64, (Option<A>, Option<B>, Option<C>, Option<D>, Option<E>, Option<F>, Option<G>))>)
        requires
            old(self).wf(),
        ensures
            final(self).wf(),
            rows@.len() == reach_keys(old(self).key_seqs()).len(),
            forall|i: int| 0 <= i < rows@.len() ==> reach_keys(old(self).key_seqs()).contains(#[trigger] rows@[i].0),
            forall|i: int, j: int| 0 <= i < j < rows@.len() ==> rows@[i].0 < rows@[j].0,
            forall|i: int|
                0 <= i < rows@.len() ==> {
                    &&& ((#[trigger] rows@[i]).1.0 is Some <==> keys_of(old(self).parts().0).contains(rows@[i].0))
                    &&& (rows@[i].1.1 is Some <==> keys_of(old(self).parts().1).contains(rows@[i].0))
                    &&& (rows@[i].1.2 is Some <==> keys_of(old(self).parts().2).contains(rows@[i].0))
                    &&& (rows@[i].1.3 is Some <==> keys_of(old(self).parts().3).contains(rows@[i].0))
                    &&& (rows@[i].1.4 is Some <==> keys_of(old(self).parts().4).contains(rows@[i].0))
                    &&& (rows@[i].1.5 is Some <==> keys_of(old(self).parts().5).contains(rows@[i].0))
                    &&& (rows@[i].1.6 is Some <==> keys_of(old(self).parts().6).contains(rows@[i].0))
                    &&& (rows@[i].1.0 matches Some(v) ==> old(self).parts().0.contains((rows@[i].0, v)))
                    &&& (rows@[i].1.1 matches Some(v) ==> old(self).parts().1.contains((rows@[i].0, v)))
                    &&& (rows@[i].1.2 matches Some(v) ==> old(self).parts().2.contains((rows@[i].0, v)))
                    &&& (rows@[i].1.3 matches Some(v) ==> old(self).parts().3.contains((rows@[i].0, v)))
                    &&& (rows@[i].1.4 matches Some(v) ==> old(self).parts().4.contains((rows@[i].0, v)))
                    &&& (rows@[i].1.5 matches Some(v) ==> old(self).parts().5.contains((rows@[i].0, v)))
                    &&& (rows@[i].1.6 matches Some(v) ==> old(self).parts().6.contains((rows@[i].0, v)))
                },
    {
        let ghost start = *self;
        let mut rows: Vec<(u64, (Option<A>, Option<B>, Option<C>, Option<D>, Option<E>, Option<F>, Option<G>))> = Vec::new();
        proof {
            lemma_reach_keys_finite(start.key_seqs());
        }
        loop
            invariant
                self.wf(),
                start == *old(self),
                reach_keys(self.key_seqs()).finite(),
                reach_keys(start.key_seqs()).finite(),
                rows@.len() + reach_keys(self.key_seqs()).len() == reach_keys(start.key_seqs()).len(),
                forall|x: u64| reach_keys(self.key_seqs()).contains(x) ==> reach_keys(start.key_seqs()).contains(x),
                forall|i: int| 0 <= i < rows@.len() ==> reach_keys(start.key_seqs()).contains(#[trigger] rows@[i].0),
                forall|i: int, x: u64|
                    0 <= i < rows@.len() && #[trigger] reach_keys(self.key_seqs()).contains(x) ==> #[trigger] rows@[i].0 < x,
                forall|i: int, j: int| 0 <= i < j < rows@.len() ==> rows@[i].0 < rows@[j].0,
                forall|x: u64| #[trigger] keys_of(self.parts().0).contains(x) <==> keys_of(start.parts().0).contains(x)
                    && (rows@.len() == 0 || rows@.last().0 < x),
                forall|x: u64| #[trigger] keys_of(self.parts().1).contains(x) <==> keys_of(start.parts().1).contains(x)
                    && (rows@.len() == 0 || rows@.last().0 < x),
                forall|x: u64| #[trigger] keys_of(self.parts().2).contains(x) <==> keys_of(start.parts().2).contains(x)
                    && (rows@.len() == 0 || rows@.last().0 < x),
                forall|x: u64| #[trigger] keys_of(self.parts().3).contains(x) <==> keys_of(start.parts().3).contains(x)
                    && (rows@.len() == 0 || rows@.last().0 < x),
                forall|x: u64| #[trigger] keys_of(self.parts().4).contains(x) <==> keys_of(start.parts().4).contains(x)
                    && (rows@.len() == 0 || rows@.last().0 < x),
                forall|x: u64| #[trigger] keys_of(self.parts().5).contains(x) <==> keys_of(start.parts().5).contains(x)
                    && (rows@.len() == 0 || rows@.last().0 < x),
                forall|x: u64| #[trigger] keys_of(self.parts().6).contains(x) <==> keys_of(start.parts().6).contains(x)
                    && (rows@.len() == 0 || rows@.last().0 < x),
                forall|p: (u64, A)| self.parts().0.contains(p) ==> start.parts().0.contains(p),
                forall|p: (u64, B)| self.parts().1.contains(p) ==> start.parts().1.contains(p),
                forall|p: (u64, C)| self.parts().2.contains(p) ==> start.parts().2.contains(p),
                forall|p: (u64, D)| self.parts().3.contains(p) ==> start.parts().3.contains(p),
                forall|p: (u64, E)| self.parts().4.contains(p) ==> start.parts().4.contains(p),
                forall|p: (u64, F)| self.parts().5.contains(p) ==> start.parts().5.contains(p),
                forall|p: (u64, G)| self.parts().6.contains(p) ==> start.parts().6.contains(p),
                forall|i: int|
                    0 <= i < rows@.len() ==> {
                        &&& ((#[trigger] rows@[i]).1.0 is Some <==> keys_of(start.parts().0).contains(rows@[i].0))
                        &&& (rows@[i].1.1 is Some <==> keys_of(start.parts().1).contains(rows@[i].0))
                        &&& (rows@[i].1.2 is Some <==> keys_of(start.parts().2).contains(rows@[i].0))
                        &&& (rows@[i].1.3 is Some <==> keys_of(start.parts().3).contains(rows@[i].0))
                        &&& (rows@[i].1.4 is Some <==> keys_of(start.parts().4).contains(rows@[i].0))
                        &&& (rows@[i].1.5 is Some <==> keys_of(start.parts().5).contains(rows@[i].0))
                        &&& (rows@[i].1.6 is Some <==> keys_of(start.parts().6).contains(rows@[i].0))
                        &&& (rows@[i].1.0 matches Some(v) ==> start.parts().0.contains((rows@[i].0, v)))
                        &&& (rows@[i].1.1 matches Some(v) ==> start.parts().1.contains((rows@[i].0, v)))
                        &&& (rows@[i].1.2 matches Some(v) ==> start.parts().2.contains((rows@[i].0, v)))
                        &&& (rows@[i].1.3 matches Some(v) ==> start.parts().3.contains((rows@[i].0, v)))
                        &&& (rows@[i].1.4 matches Some(v) ==> start.parts().4.contains((rows@[i].0, v)))
                        &&& (rows@[i].1.5 matches Some(v) ==> start.parts().5.contains((rows@[i].0, v)))
                        &&& (rows@[i].1.6 matches Some(v) ==> start.parts().6.contains((rows@[i].0, v)))
                    },
            decreases reach_keys(self.key_seqs()).len(),
        {
            let ghost cur = *self;
            let ghost ks = cur.key_seqs();
            match self.next() {
                None => {
                    proof {
                        lemma_reach_keys_finite(ks);
                        assert forall|x: u64| !reach_keys(ks).contains(x) by {
                            if cur.parts().0.len() == 0 {
                                assert(ks[0].len() == 0);
                            }
                            if cur.parts().1.len() == 0 {
                                assert(ks[1].len() == 0);
                            }
                            if cur.parts().2.len() == 0 {
                                assert(ks[2].len() == 0);
                            }
                            if cur.parts().3.len() == 0 {
                                assert(ks[3].len() == 0);
                            }
                            if cur.parts().4.len() == 0 {
                                assert(ks[4].len() == 0);
                            }
                            if cur.parts().5.len() == 0 {
                                assert(ks[5].len() == 0);
                            }
                            if cur.parts().6.len() == 0 {
                                assert(ks[6].len() == 0);
                            }
                        }
                        assert(reach_keys(ks) =~= Set::empty());
                    }
                    return rows;
                },
                Some((k, (a, b, c, d, e, f, g))) => {
                    proof {
                        let nks = self.key_seqs();
                        lemma_keys_of(cur.parts().0);
                        assert(ks[0].contains(ks[0][0]));
                        assert(in_any(ks, ks[0][0]));
                        assert(keys_of(cur.parts().0)[0] == cur.parts().0[0].0);
                        lemma_past_head(cur.parts().0, k);
                        lemma_keys_of(cur.parts().1);
                        assert(ks[1].contains(ks[1][0]));
                        assert(in_any(ks, ks[1][0]));
                        assert(keys_of(cur.parts().1)[0] == cur.parts().1[0].0);
                        lemma_past_head(cur.parts().1, k);
                        lemma_keys_of(cur.parts().2);
                        assert(ks[2].contains(ks[2][0]));
                        assert(in_any(ks, ks[2][0]));
                        assert(keys_of(cur.parts().2)[0] == cur.parts().2[0].0);
                        lemma_past_head(cur.parts().2, k);
                        lemma_keys_of(cur.parts().3);
                        assert(ks[3].contains(ks[3][0]));
                        assert(in_any(ks, ks[3][0]));
                        assert(keys_of(cur.parts().3)[0] == cur.parts().3[0].0);
                        lemma_past_head(cur.parts().3, k);
                        lemma_keys_of(cur.parts().4);
                        assert(ks[4].contains(ks[4][0]));
                        assert(in_any(ks, ks[4][0]));
                        assert(keys_of(cur.parts().4)[0] == cur.parts().4[0].0);
                        lemma_past_head(cur.parts().4, k);
                        lemma_keys_of(cur.parts().5);
                        assert(ks[5].contains(ks[5][0]));
                        assert(in_any(ks, ks[5][0]));
                        assert(keys_of(cur.parts().5)[0] == cur.parts().5[0].0);
                        lemma_past_head(cur.parts().5, k);
                        lemma_keys_of(cur.parts().6);
                        assert(ks[6].contains(ks[6][0]));
                        assert(in_any(ks, ks[6][0]));
                        assert(keys_of(cur.parts().6)[0] == cur.parts().6[0].0);
                        lemma_past_head(cur.parts().6, k);
                        assert(all_increasing(ks));
                        assert forall|i: int| 0 <= i < ks.len() implies #[trigger] nks[i] == (if ks[i][0] == k {
                            ks[i].drop_first()
                        } else {
                            ks[i]
                        }) by {
                            assert(nks[0] == keys_of(past_head(cur.parts().0, k)));
                            assert(nks[1] == keys_of(past_head(cur.parts().1, k)));
                            assert(nks[2] == keys_of(past_head(cur.parts().2, k)));
                            assert(nks[3] == keys_of(past_head(cur.parts().3, k)));
                            assert(nks[4] == keys_of(past_head(cur.parts().4, k)));
                            assert(nks[5] == keys_of(past_head(cur.parts().5, k)));
                            assert(nks[6] == keys_of(past_head(cur.parts().6, k)));
                        }
                        lemma_union_step(ks, nks, k);
                        lemma_reach_keys_finite(nks);
                    }
                    rows.push((k, (a, b, c, d, e, f, g)));
                },
            }
        }
    }
}

impl<A, B, C, D, E, F, G, H> KVOJoin<(Stream<A>, Stream<B>, Stream<C>, Stream<D>, Stream<E>, Stream<F>, Stream<G>, Stream<H>)> {
    /// The pairs left in each stream.
    pub closed spec fn parts(&self) -> (Seq<(u64, A)>, Seq<(u64, B)>, Seq<(u64, C)>, Seq<(u64, D)>, Seq<(u64, E)>, Seq<(u64, F)>, Seq<(u64, G)>, Seq<(u64, H)>) {
        (self.streams.0@, self.streams.1@, self.streams.2@, self.streams.3@, self.streams.4@, self.streams.5@, self.streams.6@, self.streams.7@)
    }

    /// The keys left in each stream.
    pub open spec fn key_seqs(&self) -> Seq<Seq<u64>> {
        seq![keys_of(self.parts().0), keys_of(self.parts().1), keys_of(self.parts().2), keys_of(self.parts().3), keys_of(self.parts().4), keys_of(self.parts().5), keys_of(self.parts().6), keys_of(self.parts().7)]
    }

    /// Every stream is in strictly increasing key order.
    pub open spec fn wf(&self) -> bool {
        ascending(self.parts().0) && ascending(self.parts().1) && ascending(self.parts().2) && ascending(self.parts().3) && ascending(self.parts().4) && ascending(self.parts().5) && ascending(self.parts().6) && ascending(self.parts().7)
    }

    /// The join of eight streams.
    pub fn of_eight(s0: Stream<A>, s1: Stream<B>, s2: Stream<C>, s3: Stream<D>, s4: Stream<E>, s5: Stream<F>, s6: Stream<G>, s7: Stream<H>) -> (j: Self)
        requires
            ascending(s0@),
            ascending(s1@),
            ascending(s2@),
            ascending(s3@),
            ascending(s4@),
            ascending(s5@),
            ascending(s6@),
            ascending(s7@),
        ensures
            j.parts() == (s0@, s1@, s2@, s3@, s4@, s5@, s6@, s7@),
            j.wf(),
    {
        KVOJoin { streams: (s0, s1, s2, s3, s4, s5, s6, s7) }
    }

    /// The next row: the least key left in any stream, with the value of
    /// each stream whose head carries it; `None` once any stream is
    /// exhausted.
    #[verifier::rlimit(100)]
    pub fn next(&mut self) -> (r: Option<(u64, (Option<A>, Option<B>, Option<C>, Option<D>, Option<E>, Option<F>, Option<G>, Option<H>))>)
        requires
            old(self).wf(),
        ensures
            final(self).wf(),
            r is None <==> old(self).parts().0.len() == 0 || old(self).parts().1.len() == 0 || old(self).parts().2.len() == 0 || old(self).parts().3.len() == 0 || old(self).parts().4.len() == 0 || old(self).parts().5.len() == 0 || old(self).parts().6.len() == 0 || old(self).parts().7.len() == 0,
            r is None ==> final(self).parts() == old(self).parts(),
            r matches Some((k, (a, b, c, d, e, f, g, h))) ==> {
                &&& least_held(old(self).key_seqs(), k)
                &&& a == head_slot(old(self).parts().0, k)
                &&& b == head_slot(old(self).parts().1, k)
                &&& c == head_slot(old(self).parts().2, k)
                &&& d == head_slot(old(self).parts().3, k)
                &&& e == head_slot(old(self).parts().4, k)
                &&& f == head_slot(old(self).parts().5, k)
                &&& g == head_slot(old(self).parts().6, k)
                &&& h == head_slot(old(self).parts().7, k)
                &&& (a is Some <==> keys_of(old(self).parts().0).contains(k))
                &&& (b is Some <==> keys_of(old(self).parts().1).contains(k))
                &&& (c is Some <==> keys_of(old(self).parts().2).contains(k))
                &&& (d is Some <==> keys_of(old(self).parts().3).contains(k))
                &&& (e is Some <==> keys_of(old(self).parts().4).contains(k))
                &&& (f is Some <==> keys_of(old(self).parts().5).contains(k))
                &&& (g is Some <==> keys_of(old(self).parts().6).contains(k))
                &&& (h is Some <==> keys_of(old(self).parts().7).contains(k))
                &&& final(self).parts().0 == past_head(old(self).parts().0, k)
                &&& final(self).parts().1 == past_head(old(self).parts().1, k)
                &&& final(self).parts().2 == past_head(old(self).parts().2, k)
                &&& final(self).parts().3 == past_head(old(self).parts().3, k)
                &&& final(self).parts().4 == past_head(old(self).parts().4, k)
                &&& final(self).parts().5 == past_head(old(self).parts().5, k)
                &&& final(self).parts().6 == past_head(old(self).parts().6, k)
                &&& final(self).parts().7 == past_head(old(self).parts().7, k)
            },
    {
        let ghost ks = self.key_seqs();
        let h0 = match self.streams.0.head_key() {
            Some(k) => k,
            None => return None,
        };
        let h1 = match self.streams.1.head_key() {
            Some(k) => k,
            None => return None,
        };
        let h2 = match self.streams.2.head_key() {
            Some(k) => k,
            None => return None,
        };
        let h3 = match self.streams.3.head_key() {
            Some(k) => k,
            None => return None,
        };
        let h4 = match self.streams.4.head_key() {
            Some(k) => k,
            None => return None,
        };
        let h5 = match self.streams.5.head_key() {
            Some(k) => k,
            None => return None,
        };
        let h6 = match self.streams.6.head_key() {
            Some(k) => k,
            None => return None,
        };
        let h7 = match self.streams.7.head_key() {
            Some(k) => k,
            None => return None,
        };
        proof {
            lemma_head(self.parts().0);
            lemma_head(self.parts().1);
            lemma_head(self.parts().2);
            lemma_head(self.parts().3);
            lemma_head(self.parts().4);
            lemma_head(self.parts().5);
            lemma_head(self.parts().6);
            lemma_head(self.parts().7);
        }
        let k = if h1 < h0 { h1 } else { h0 };
        let k = if h2 < k { h2 } else { k };
        let k = if h3 < k { h3 } else { k };
        let k = if h4 < k { h4 } else { k };
        let k = if h5 < k { h5 } else { k };
        let k = if h6 < k { h6 } else { k };
        let k = if h7 < k { h7 } else { k };
        let a = self.streams.0.take_if_key(k);
        let b = self.streams.1.take_if_key(k);
        let c = self.streams.2.take_if_key(k);
        let d = self.streams.3.take_if_key(k);
        let e = self.streams.4.take_if_key(k);
        let f = self.streams.5.take_if_key(k);
        let g = self.streams.6.take_if_key(k);
        let h = self.streams.7.take_if_key(k);
        proof {
            if h0 == k {
                assert(ks[0].contains(k));
            }
            if h1 == k {
                assert(ks[1].contains(k));
            }
            if h2 == k {
                assert(ks[2].contains(k));
            }
            if h3 == k {
                assert(ks[3].contains(k));
            }
            if h4 == k {
                assert(ks[4].contains(k));
            }
            if h5 == k {
                assert(ks[5].contains(k));
            }
            if h6 == k {
                assert(ks[6].contains(k));
            }
            if h7 == k {
                assert(ks[7].contains(k));
            }
            assert(in_any(ks, k));
            assert forall|x: u64| x < k implies !in_any(ks, x) by {
                if in_any(ks, x) {
                    let i = choose|i: int| 0 <= i < ks.len() && (#[trigger] ks[i]).contains(x);
                    assert(i == 0 || i == 1 || i == 2 || i == 3 || i == 4 || i == 5 || i == 6 || i == 7);
                }
            }
        }
        Some((k, (a, b, c, d, e, f, g, h)))
    }

    /// Every row, in order, until the join ends: one for each key that some
    /// stream holds and that lies at or below the last key of every stream,
    /// in increasing key order. A slot is present exactly where its stream
    /// holds the row's key, and then carries that stream's value.
    #[verifier::rlimit(100)]
    pub fn rows(&mut self) -> (rows: Vec<(u64, (Option<A>, Option<B>, Option<C>, Option<D>, Option<E>, Option<F>, Option<G>, Option<H>))>)
        requires
            old(self).wf(),
        ensures
            final(self).wf(),
            rows@.len() == reach_keys(old(self).key_seqs()).len(),
            forall|i: int| 0 <= i < rows@.len() ==> reach_keys(old(self).key_seqs()).contains(#[trigger] rows@[i].0),
            forall|i: int, j: int| 0 <= i < j < rows@.len() ==> rows@[i].0 < rows@[j].0,
            forall|i: int|
                0 <= i < rows@.len() ==> {
                    &&& ((#[trigger] rows@[i]).1.0 is Some <==> keys_of(old(self).parts().0).contains(rows@[i].0))
                    &&& (rows@[i].1.1 is Some <==> keys_of(old(self).parts().1).contains(rows@[i].0))
                    &&& (rows@[i].1.2 is Some <==> keys_of(old(self).parts().2).contains(rows@[i].0))
                    &&& (rows@[i].1.3 is Some <==> keys_of(old(self).parts().3).contains(rows@[i].0))
                    &&& (rows@[i].1.4 is Some <==> keys_of(old(self).parts().4).contains(rows@[i].0))
                    &&& (rows@[i].1.5 is Some <==> keys_of(old(self).parts().5).contains(rows@[i].0))
                    &&& (rows@[i].1.6 is Some <==> keys_of(old(self).parts().6).contains(rows@[i].0))
                    &&& (rows@[i].1.7 is Some <==> keys_of(old(self).parts().7).contains(rows@[i].0))
                    &&& (rows@[i].1.0 matches Some(v) ==> old(self).parts().0.contains((rows@[i].0, v)))
                    &&& (rows@[i].1.1 matches Some(v) ==> old(self).parts().1.contains((rows@[i].0, v)))
                    &&& (rows@[i].1.2 matches Some(v) ==> old(self).parts().2.contains((rows@[i].0, v)))
                    &&& (rows@[i].1.3 matches Some(v) ==> old(self).parts().3.contains((rows@[i].0, v)))
                    &&& (rows@[i].1.4 matches Some(v) ==> old(self).parts().4.contains((rows@[i].0, v)))
                    &&& (rows@[i].1.5 matches Some(v) ==> old(self).parts().5.contains((rows@[i].0, v)))
                    &&& (rows@[i].1.6 matches Some(v) ==> old(self).parts().6.contains((rows@[i].0, v)))
                    &&& (rows@[i].1.7 matches Some(v) ==> old(self).parts().7.contains((rows@[i].0, v)))
                },
    {
        let ghost start = *self;
        let mut rows: Vec<(u64, (Option<A>, Option<B>, Option<C>, Option<D>, Option<E>, Option<F>, Option<G>, Option<H>))> = Vec::new();
        proof {
            lemma_reach_keys_finite(start.key_seqs());
        }
        loop
            invariant
                self.wf(),
                start == *old(self),
                reach_keys(self.key_seqs()).finite(),
                reach_keys(start.key_seqs()).finite(),
                rows@.len() + reach_keys(self.key_seqs()).len() == reach_keys(start.key_seqs()).len(),
                forall|x: u64| reach_keys(self.key_seqs()).contains(x) ==> reach_keys(start.key_seqs()).contains(x),
                forall|i: int| 0 <= i < rows@.len() ==> reach_keys(start.key_seqs()).contains(#[trigger] rows@[i].0),
                forall|i: int, x: u64|
                    0 <= i < rows@.len() && #[trigger] reach_keys(self.key_seqs()).contains(x) ==> #[trigger] rows@[i].0 < x,
                forall|i: int, j: int| 0 <= i < j < rows@.len() ==> rows@[i].0 < rows@[j].0,
                forall|x: u64| #[trigger] keys_of(self.parts().0).contains(x) <==> keys_of(start.parts().0).contains(x)
                    && (rows@.len() == 0 || rows@.last().0 < x),
                forall|x: u64| #[trigger] keys_of(self.parts().1).contains(x) <==> keys_of(start.parts().1).contains(x)
                    && (rows@.len() == 0 || rows@.last().0 < x),
                forall|x: u64| #[trigger] keys_of(self.parts().2).contains(x) <==> keys_of(start.parts().2).contains(x)
                    && (rows@.len() == 0 || rows@.last().0 < x),
                forall|x: u64| #[trigger] keys_of(self.parts().3).contains(x) <==> keys_of(start.parts().3).contains(x)
                    && (rows@.len() == 0 || rows@.last().0 < x),
                forall|x: u64| #[trigger] keys_of(self.parts().4).contains(x) <==> keys_of(start.parts().4).contains(x)
                    && (rows@.len() == 0 || rows@.last().0 < x),
                forall|x: u64| #[trigger] keys_of(self.parts().5).contains(x) <==> keys_of(start.parts().5).contains(x)
                    && (rows@.len() == 0 || rows@.last().0 < x),
                forall|x: u64| #[trigger] keys_of(self.parts().6).contains(x) <==> keys_of(start.parts().6).contains(x)
                    && (rows@.len() == 0 || rows@.last().0 < x),
                forall|x: u64| #[trigger] keys_of(self.parts().7).contains(x) <==> keys_of(start.parts().7).contains(x)
                    && (rows@.len() == 0 || rows@.last().0 < x),
                forall|p: (u64, A)| self.parts().0.contains(p) ==> start.parts().0.contains(p),
                forall|p: (u64, B)| self.parts().1.contains(p) ==> start.parts().1.contains(p),
                forall|p: (u64, C)| self.parts().2.contains(p) ==> start.parts().2.contains(p),
                forall|p: (u64, D)| self.parts().3.contains(p) ==> start.parts().3.contains(p),
                forall|p: (u64, E)| self.parts().4.contains(p) ==> start.parts().4.contains(p),
                forall|p: (u64, F)| self.parts().5.contains(p) ==> start.parts().5.contains(p),
                forall|p: (u64, G)| self.parts().6.contains(p) ==> start.parts().6.contains(p),
                forall|p: (u64, H)| self.parts().7.contains(p) ==> start.parts().7.contains(p),
                forall|i: int|
                    0 <= i < rows@.len() ==> {
                        &&& ((#[trigger] rows@[i]).1.0 is Some <==> keys_of(start.parts().0).contains(rows@[i].0))
                        &&& (rows@[i].1.1 is Some <==> keys_of(start.parts().1).contains(rows@[i].0))
                        &&& (rows@[i].1.2 is Some <==> keys_of(start.parts().2).contains(rows@[i].0))
                        &&& (rows@[i].1.3 is Some <==> keys_of(start.parts().3).contains(rows@[i].0))
                        &&& (rows@[i].1.4 is Some <==> keys_of(start.parts().4).contains(rows@[i].0))
                        &&& (rows@[i].1.5 is Some <==> keys_of(start.parts().5).contains(rows@[i].0))
                        &&& (rows@[i].1.6 is Some <==> keys_of(start.parts().6).contains(rows@[i].0))
                        &&& (rows@[i].1.7 is Some <==> keys_of(start.parts().7).contains(rows@[i].0))
                        &&& (rows@[i].1.0 matches Some(v) ==> start.parts().0.contains((rows@[i].0, v)))
                        &&& (rows@[i].1.1 matches Some(v) ==> start.parts().1.contains((rows@[i].0, v)))
                        &&& (rows@[i].1.2 matches Some(v) ==> start.parts().2.contains((rows@[i].0, v)))
                        &&& (rows@[i].1.3 matches Some(v) ==> start.parts().3.contains((rows@[i].0, v)))
                        &&& (rows@[i].1.4 matches Some(v) ==> start.parts().4.contains((rows@[i].0, v)))
                        &&& (rows@[i].1.5 matches Some(v) ==> start.parts().5.contains((rows@[i].0, v)))
                        &&& (rows@[i].1.6 matches Some(v) ==> start.parts().6.contains((rows@[i].0, v)))
                        &&& (rows@[i].1.7 matches Some(v) ==> start.parts().7.contains((rows@[i].0, v)))
                    },
            decreases reach_keys(self.key_seqs()).len(),
        {
            let ghost cur = *self;
            let ghost ks = cur.key_seqs();
            match self.next() {
                None => {
                    proof {
                        lemma_reach_keys_finite(ks);
                        assert forall|x: u64| !reach_keys(ks).contains(x) by {
                            if cur.parts().0.len() == 0 {
                                assert(ks[0].len() == 0);
                            }
                            if cur.parts().1.len() == 0 {
                                assert(ks[1].len() == 0);
                            }
                            if cur.parts().2.len() == 0 {
                                assert(ks[2].len() == 0);
                            }
                            if cur.parts().3.len() == 0 {
                                assert(ks[3].len() == 0);
                            }
                            if cur.parts().4.len() == 0 {
                                assert(ks[4].len() == 0);
                            }
                            if cur.parts().5.len() == 0 {
                                assert(ks[5].len() == 0);
                            }
                            if cur.parts().6.len() == 0 {
                                assert(ks[6].len() == 0);
                            }
                            if cur.parts().7.len() == 0 {
                                assert(ks[7].len() == 0);
                            }
                        }
                        assert(reach_keys(ks) =~= Set::empty());
                    }
                    return rows;
                },
                Some((k, (a, b, c, d, e, f, g, h))) => {
                    proof {
                        let nks = self.key_seqs();
                        lemma_keys_of(cur.parts().0);
                        assert(ks[0].contains(ks[0][0]));
                        assert(in_any(ks, ks[0][0]));
                        assert(keys_of(cur.parts().0)[0] == cur.parts().0[0].0);
                        lemma_past_head(cur.parts().0, k);
                        lemma_keys_of(cur.parts().1);
                        assert(ks[1].contains(ks[1][0]));
                        assert(in_any(ks, ks[1][0]));
                        assert(keys_of(cur.parts().1)[0] == cur.parts().1[0].0);
                        lemma_past_head(cur.parts().1, k);
                        lemma_keys_of(cur.parts().2);
                        assert(ks[2].contains(ks[2][0]));
                        assert(in_any(ks, ks[2][0]));
                        assert(keys_of(cur.parts().2)[0] == cur.parts().2[0].0);
                        lemma_past_head(cur.parts().2, k);
                        lemma_keys_of(cur.parts().3);
                        assert(ks[3].contains(ks[3][0]));
                        assert(in_any(ks, ks[3][0]));
                        assert(keys_of(cur.parts().3)[0] == cur.parts().3[0].0);
                        lemma_past_head(cur.parts().3, k);
                        lemma_keys_of(cur.parts().4);
                        assert(ks[4].contains(ks[4][0]));
                        assert(in_any(ks, ks[4][0]));
                        assert(keys_of(cur.parts().4)[0] == cur.parts().4[0].0);
                        lemma_past_head(cur.parts().4, k);
                        lemma_keys_of(cur.parts().5);
                        assert(ks[5].contains(ks[5][0]));
                        assert(in_any(ks, ks[5][0]));
                        assert(keys_of(cur.parts().5)[0] == cur.parts().5[0].0);
                        lemma_past_head(cur.parts().5, k);
                        lemma_keys_of(cur.parts().6);
                        assert(ks[6].contains(ks[6][0]));
                        assert(in_any(ks, ks[6][0]));
                        assert(keys_of(cur.parts().6)[0] == cur.parts().6[0].0);
                        lemma_past_head(cur.parts().6, k);
                        lemma_keys_of(cur.parts().7);
                        assert(ks[7].contains(ks[7][0]));
                        assert(in_any(ks, ks[7][0]));
                        assert(keys_of(cur.parts().7)[0] == cur.parts().7[0].0);
                        lemma_past_head(cur.parts().7, k);
                        assert(all_increasing(ks));
                        assert forall|i: int| 0 <= i < ks.len() implies #[trigger] nks[i] == (if ks[i][0] == k {
                            ks[i].drop_first()
                        } else {
                            ks[i]
                        }) by {
                            assert(nks[0] == keys_of(past_head(cur.parts().0, k)));
                            assert(nks[1] == keys_of(past_head(cur.parts().1, k)));
                            assert(nks[2] == keys_of(past_head(cur.parts().2, k)));
                            assert(nks[3] == keys_of(past_head(cur.parts().3, k)));
                            assert(nks[4] == keys_of(past_head(cur.parts().4, k)));
                            assert(nks[5] == keys_of(past_head(cur.parts().5, k)));
                            assert(nks[6] == keys_of(past_head(cur.parts().6, k)));
                            assert(nks[7] == keys_of(past_head(cur.parts().7, k)));
                        }
                        lemma_union_step(ks, nks, k);
                        lemma_reach_keys_finite(nks);
                    }
                    rows.push((k, (a, b, c, d, e, f, g, h)));
                },
            }
        }
    }
}

impl<A, B, C, D, E, F, G, H, J> KVOJoin<(Stream<A>, Stream<B>, Stream<C>, Stream<D>, Stream<E>, Stream<F>, Stream<G>, Stream<H>, Stream<J>)> {
    /// The pairs left in each stream.
    pub closed spec fn parts(&self) -> (Seq<(u64, A)>, Seq<(u64, B)>, Seq<(u64, C)>, Seq<(u64, D)>, Seq<(u64, E)>, Seq<(u64, F)>, Seq<(u64, G)>, Seq<(u64, H)>, Seq<(u64, J)>) {
        (self.streams.0@, self.streams.1@, self.streams.2@, self.streams.3@, self.streams.4@, self.streams.5@, self.streams.6@, self.streams.7@, self.streams.8@)
    }

    /// The keys left in each stream.
    pub open spec fn key_seqs(&self) -> Seq<Seq<u64>> {
        seq![keys_of(self.parts().0), keys_of(self.parts().1), keys_of(self.parts().2), keys_of(self.parts().3), keys_of(self.parts().4), keys_of(self.parts().5), keys_of(self.parts().6), keys_of(self.parts().7), keys_of(self.parts().8)]
    }

    /// Every stream is in strictly increasing key order.
    pub open spec fn wf(&self) -> bool {
        ascending(self.parts().0) && ascending(self.parts().1) && ascending(self.parts().2) && ascending(self.parts().3) && ascending(self.parts().4) && ascending(self.parts().5) && ascending(self.parts().6) && ascending(self.parts().7) && ascending(self.parts().8)
    }

    /// The join of nine streams.
    pub fn of_nine(s0: Stream<A>, s1: Stream<B>, s2: Stream<C>, s3: Stream<D>, s4: Stream<E>, s5: Stream<F>, s6: Stream<G>, s7: Stream<H>, s8: Stream<J>) -> (j: Self)
        requires
            ascending(s0@),
            ascending(s1@),
            ascending(s2@),
            ascending(s3@),
            ascending(s4@),
            ascending(s5@),
            ascending(s6@),
            ascending(s7@),
            ascending(s8@),
        ensures
            j.parts() == (s0@, s1@, s2@, s3@, s4@, s5@, s6@, s7@, s8@),
            j.wf(),
    {
        KVOJoin { streams: (s0, s1, s2, s3, s4, s5, s6, s7, s8) }
    }

    /// The next row: the least key left in any stream, with the value of
    /// each stream whose head carries it; `None` once any stream is
    /// exhausted.
    #[verifier::rlimit(100)]
    pub fn next(&mut self) -> (r: Option<(u64, (Option<A>, Option<B>, Option<C>, Option<D>, Option<E>, Option<F>, Option<G>, Option<H>, Option<J>))>)
        requires
            old(self).wf(),
        ensures
            final(self).wf(),
            r is None <==> old(self).parts().0.len() == 0 || old(self).parts().1.len() == 0 || old(self).parts().2.len() == 0 || old(self).parts().3.len() == 0 || old(self).parts().4.len() == 0 || old(self).parts().5.len() == 0 || old(self).parts().6.len() == 0 || old(self).parts().7.len() == 0 || old(self).parts().8.len() == 0,
            r is None ==> final(self).parts() == old(self).parts(),
            r matches Some((k, (a, b, c, d, e, f, g, h, j))) ==> {
                &&& least_held(old(self).key_seqs(), k)
                &&& a == head_slot(old(self).parts().0, k)
                &&& b == head_slot(old(self).parts().1, k)
                &&& c == head_slot(old(self).parts().2, k)
                &&& d == head_slot(old(self).parts().3, k)
                &&& e == head_slot(old(self).parts().4, k)
                &&& f == head_slot(old(self).parts().5, k)
                &&& g == head_slot(old(self).parts().6, k)
                &&& h == head_slot(old(self).parts().7, k)
                &&& j == head_slot(old(self).parts().8, k)
                &&& (a is Some <==> keys_of(old(self).parts().0).contains(k))
                &&& (b is Some <==> keys_of(old(self).parts().1).contains(k))
                &&& (c is Some <==> keys_of(old(self).parts().2).contains(k))
                &&& (d is Some <==> keys_of(old(self).parts().3).contains(k))
                &&& (e is Some <==> keys_of(old(self).parts().4).contains(k))
                &&& (f is Some <==> keys_of(old(self).parts().5).contains(k))
                &&& (g is Some <==> keys_of(old(self).parts().6).contains(k))
                &&& (h is Some <==> keys_of(old(self).parts().7).contains(k))
                &&& (j is Some <==> keys_of(old(self).parts().8).contains(k))
                &&& final(self).parts().0 == past_head(old(self).parts().0, k)
                &&& final(self).parts().1 == past_head(old(self).parts().1, k)
                &&& final(self).parts().2 == past_head(old(self).parts().2, k)
                &&& final(self).parts().3 == past_head(old(self).parts().3, k)
                &&& final(self).parts().4 == past_head(old(self).parts().4, k)
                &&& final(self).parts().5 == past_head(old(self).parts().5, k)
                &&& final(self).parts().6 == past_head(old(self).parts().6, k)
                &&& final(self).parts().7 == past_head(old(self).parts().7, k)
                &&& final(self).parts().8 == past_head(old(self).parts().8, k)
            },
    {
        let ghost ks = self.key_seqs();
        let h0 = match self.streams.0.head_key() {
            Some(k) => k,
            None => return None,
        };
        let h1 = match self.streams.1.head_key() {
            Some(k) => k,
            None => return None,
        };
        let h2 = match self.streams.2.head_key() {
            Some(k) => k,
            None => return None,
        };
        let h3 = match self.streams.3.head_key() {
            Some(k) => k,
            None => return None,
        };
        let h4 = match self.streams.4.head_key() {
            Some(k) => k,
            None => return None,
        };
        let h5 = match self.streams.5.head_key() {
            Some(k) => k,
            None => return None,
        };
        let h6 = match self.streams.6.head_key() {
            Some(k) => k,
            None => return None,
        };
        let h7 = match self.streams.7.head_key() {
            Some(k) => k,
            None => return None,
        };
        let h8 = match self.streams.8.head_key() {
            Some(k) => k,
            None => return None,
        };
        proof {
            lemma_head(self.parts().0);
            lemma_head(self.parts().1);
            lemma_head(self.parts().2);
            lemma_head(self.parts().3);
            lemma_head(self.parts().4);
            lemma_head(self.parts().5);
            lemma_head(self.parts().6);
            lemma_head(self.parts().7);
            lemma_head(self.parts().8);
        }
        let k = if h1 < h0 { h1 } else { h0 };
        let k = if h2 < k { h2 } else { k };
        let k = if h3 < k { h3 } else { k };
        let k = if h4 < k { h4 } else { k };
        let k = if h5 < k { h5 } else { k };
        let k = if h6 < k { h6 } else { k };
        let k = if h7 < k { h7 } else { k };
        let k = if h8 < k { h8 } else { k };
        let a = self.streams.0.take_if_key(k);
        let b = self.streams.1.take_if_key(k);
        let c = self.streams.2.take_if_key(k);
        let d = self.streams.3.take_if_key(k);
        let e = self.streams.4.take_if_key(k);
        let f = self.streams.5.take_if_key(k);
        let g = self.streams.6.take_if_key(k);
        let h = self.streams.7.take_if_key(k);
        let j = self.streams.8.take_if_key(k);
        proof {
            if h0 == k {
                assert(ks[0].contains(k));
            }
            if h1 == k {
                assert(ks[1].contains(k));
            }
            if h2 == k {
                assert(ks[2].contains(k));
            }
            if h3 == k {
                assert(ks[3].contains(k));
            }
            if h4 == k {
                assert(ks[4].contains(k));
            }
            if h5 == k {
                assert(ks[5].contains(k));
            }
            if h6 == k {
                assert(ks[6].contains(k));
            }
            if h7 == k {
                assert(ks[7].contains(k));
            }
            if h8 == k {
                assert(ks[8].contains(k));
            }
            assert(in_any(ks, k));
            assert forall|x: u64| x < k implies !in_any(ks, x) by {
                if in_any(ks, x) {
                    let i = choose|i: int| 0 <= i < ks.len() && (#[trigger] ks[i]).contains(x);
                    assert(i == 0 || i == 1 || i == 2 || i == 3 || i == 4 || i == 5 || i == 6 || i == 7 || i == 8);
                }
            }
        }
        Some((k, (a, b, c, d, e, f, g, h, j)))
    }

    /// Every row, in order, until the join ends: one for each key that some
    /// stream holds and that lies at or below the last key of every stream,
    /// in increasing key order. A slot is present exactly where its stream
    /// holds the row's key, and then carries that stream's value.
    #[verifier::rlimit(100)]
    pub fn rows(&mut self) -> (rows: Vec<(u64, (Option<A>, Option<B>, Option<C>, Option<D>, Option<E>, Option<F>, Option<G>, Option<H>, Option<J>))>)
        requires
            old(self).wf(),
        ensures
            final(self).wf(),
            rows@.len() == reach_keys(old(self).key_seqs()).len(),
            forall|i: int| 0 <= i < rows@.len() ==> reach_keys(old(self).key_seqs()).contains(#[trigger] rows@[i].0),
            forall|i: int, j: int| 0 <= i < j < rows@.len() ==> rows@[i].0 < rows@[j].0,
            forall|i: int|
                0 <= i < rows@.len() ==> {
                    &&& ((#[trigger] rows@[i]).1.0 is Some <==> keys_of(old(self).parts().0).contains(rows@[i].0))
                    &&& (rows@[i].1.1 is Some <==> keys_of(old(self).parts().1).contains(rows@[i].0))
                    &&& (rows@[i].1.2 is Some <==> keys_of(old(self).parts().2).contains(rows@[i].0))
                    &&& (rows@[i].1.3 is Some <==> keys_of(old(self).parts().3).contains(rows@[i].0))
                    &&& (rows@[i].1.4 is Some <==> keys_of(old(self).parts().4).contains(rows@[i].0))
                    &&& (rows@[i].1.5 is Some <==> keys_of(old(self).parts().5).contains(rows@[i].0))
                    &&& (rows@[i].1.6 is Some <==> keys_of(old(self).parts().6).contains(rows@[i].0))
                    &&& (rows@[i].1.7 is Some <==> keys_of(old(self).parts().7).contains(rows@[i].0))
                    &&& (rows@[i].1.8 is Some <==> keys_of(old(self).parts().8).contains(rows@[i].0))
                    &&& (rows@[i].1.0 matches Some(v) ==> old(self).parts().0.contains((rows@[i].0, v)))
                    &&& (rows@[i].1.1 matches Some(v) ==> old(self).parts().1.contains((rows@[i].0, v)))
                    &&& (rows@[i].1.2 matches Some(v) ==> old(self).parts().2.contains((rows@[i].0, v)))
                    &&& (rows@[i].1.3 matches Some(v) ==> old(self).parts().3.contains((rows@[i].0, v)))
                    &&& (rows@[i].1.4 matches Some(v) ==> old(self).parts().4.contains((rows@[i].0, v)))
                    &&& (rows@[i].1.5 matches Some(v) ==> old(self).parts().5.contains((rows@[i].0, v)))
                    &&& (rows@[i].1.6 matches Some(v) ==> old(self).parts().6.contains((rows@[i].0, v)))
                    &&& (rows@[i].1.7 matches Some(v) ==> old(self).parts().7.contains((rows@[i].0, v)))
                    &&& (rows@[i].1.8 matches Some(v) ==> old(self).parts().8.contains((rows@[i].0, v)))
                },
    {
        let ghost start = *self;
        let mut rows: Vec<(u64, (Option<A>, Option<B>, Option<C>, Option<D>, Option<E>, Option<F>, Option<G>, Option<H>, Option<J>))> = Vec::new();
        proof {
            lemma_reach_keys_finite(start.key_seqs());
        }
        loop
            invariant
                self.wf(),
                start == *old(self),
                reach_keys(self.key_seqs()).finite(),
                reach_keys(start.key_seqs()).finite(),
                rows@.len() + reach_keys(self.key_seqs()).len() == reach_keys(start.key_seqs()).len(),
                forall|x: u64| reach_keys(self.key_seqs()).contains(x) ==> reach_keys(start.key_seqs()).contains(x),
                forall|i: int| 0 <= i < rows@.len() ==> reach_keys(start.key_seqs()).contains(#[trigger] rows@[i].0),
                forall|i: int, x: u64|
                    0 <= i < rows@.len() && #[trigger] reach_keys(self.key_seqs()).contains(x) ==> #[trigger] rows@[i].0 < x,
                forall|i: int, j: int| 0 <= i < j < rows@.len() ==> rows@[i].0 < rows@[j].0,
                forall|x: u64| #[trigger] keys_of(self.parts().0).contains(x) <==> keys_of(start.parts().0).contains(x)
                    && (rows@.len() == 0 || rows@.last().0 < x),
                forall|x: u64| #[trigger] keys_of(self.parts().1).contains(x) <==> keys_of(start.parts().1).contains(x)
                    && (rows@.len() == 0 || rows@.last().0 < x),
                forall|x: u64| #[trigger] keys_of(self.parts().2).contains(x) <==> keys_of(start.parts().2).contains(x)
                    && (rows@.len() == 0 || rows@.last().0 < x),
                forall|x: u64| #[trigger] keys_of(self.parts().3).contains(x) <==> keys_of(start.parts().3).contains(x)
                    && (rows@.len() == 0 || rows@.last().0 < x),
                forall|x: u64| #[trigger] keys_of(self.parts().4).contains(x) <==> keys_of(start.parts().4).contains(x)
                    && (rows@.len() == 0 || rows@.last().0 < x),
                forall|x: u64| #[trigger] keys_of(self.parts().5).contains(x) <==> keys_of(start.parts().5).contains(x)
                    && (rows@.len() == 0 || rows@.last().0 < x),
                forall|x: u64| #[trigger] keys_of(self.parts().6).contains(x) <==> keys_of(start.parts().6).contains(x)
                    && (rows@.len() == 0 || rows@.last().0 < x),
                forall|x: u64| #[trigger] keys_of(self.parts().7).contains(x) <==> keys_of(start.parts().7).contains(x)
                    && (rows@.len() == 0 || rows@.last().0 < x),
                forall|x: u64| #[trigger] keys_of(self.parts().8).contains(x) <==> keys_of(start.parts().8).contains(x)
                    && (rows@.len() == 0 || rows@.last().0 < x),
                forall|p: (u64, A)| self.parts().0.contains(p) ==> start.parts().0.contains(p),
                forall|p: (u64, B)| self.parts().1.contains(p) ==> start.parts().1.contains(p),
                forall|p: (u64, C)| self.parts().2.contains(p) ==> start.parts().2.contains(p),
                forall|p: (u64, D)| self.parts().3.contains(p) ==> start.parts().3.contains(p),
                forall|p: (u64, E)| self.parts().4.contains(p) ==> start.parts().4.contains(p),
                forall|p: (u64, F)| self.parts().5.contains(p) ==> start.parts().5.contains(p),
                forall|p: (u64, G)| self.parts().6.contains(p) ==> start.parts().6.contains(p),
                forall|p: (u64, H)| self.parts().7.contains(p) ==> start.parts().7.contains(p),
                forall|p: (u64, J)| self.parts().8.contains(p) ==> start.parts().8.contains(p),
                forall|i: int|
                    0 <= i < rows@.len() ==> {
                        &&& ((#[trigger] rows@[i]).1.0 is Some <==> keys_of(start.parts().0).contains(rows@[i].0))
                        &&& (rows@[i].1.1 is Some <==> keys_of(start.parts().1).contains(rows@[i].0))
                        &&& (rows@[i].1.2 is Some <==> keys_of(start.parts().2).contains(rows@[i].0))
                        &&& (rows@[i].1.3 is Some <==> keys_of(start.parts().3).contains(rows@[i].0))
                        &&& (rows@[i].1.4 is Some <==> keys_of(start.parts().4).contains(rows@[i].0))
                        &&& (rows@[i].1.5 is Some <==> keys_of(start.parts().5).contains(rows@[i].0))
                        &&& (rows@[i].1.6 is Some <==> keys_of(start.parts().6).contains(rows@[i].0))
                        &&& (rows@[i].1.7 is Some <==> keys_of(start.parts().7).contains(rows@[i].0))
                        &&& (rows@[i].1.8 is Some <==> keys_of(start.parts().8).contains(rows@[i].0))
                        &&& (rows@[i].1.0 matches Some(v) ==> start.parts().0.contains((rows@[i].0, v)))
                        &&& (rows@[i].1.1 matches Some(v) ==> start.parts().1.contains((rows@[i].0, v)))
                        &&& (rows@[i].1.2 matches Some(v) ==> start.parts().2.contains((rows@[i].0, v)))
                        &&& (rows@[i].1.3 matches Some(v) ==> start.parts().3.contains((rows@[i].0, v)))
                        &&& (rows@[i].1.4 matches Some(v) ==> start.parts().4.contains((rows@[i].0, v)))
                        &&& (rows@[i].1.5 matches Some(v) ==> start.parts().5.contains((rows@[i].0, v)))
                        &&& (rows@[i].1.6 matches Some(v) ==> start.parts().6.contains((rows@[i].0, v)))
                        &&& (rows@[i].1.7 matches Some(v) ==> start.parts().7.contains((rows@[i].0, v)))
                        &&& (rows@[i].1.8 matches Some(v) ==> start.parts().8.contains((rows@[i].0, v)))
                    },
            decreases reach_keys(self.key_seqs()).len(),
        {
            let ghost cur = *self;
            let ghost ks = cur.key_seqs();
            match self.next() {
                None => {
                    proof {
                        lemma_reach_keys_finite(ks);
                        assert forall|x: u64| !reach_keys(ks).contains(x) by {
                            if cur.parts().0.len() == 0 {
                                assert(ks[0].len() == 0);
                            }
                            if cur.parts().1.len() == 0 {
                                assert(ks[1].len() == 0);
                            }
                            if cur.parts().2.len() == 0 {
                                assert(ks[2].len() == 0);
                            }
                            if cur.parts().3.len() == 0 {
                                assert(ks[3].len() == 0);
                            }
                            if cur.parts().4.len() == 0 {
                                assert(ks[4].len() == 0);
                            }
                            if cur.parts().5.len() == 0 {
                                assert(ks[5].len() == 0);
                            }
                            if cur.parts().6.len() == 0 {
                                assert(ks[6].len() == 0);
                            }
                            if cur.parts().7.len() == 0 {
                                assert(ks[7].len() == 0);
                            }
                            if cur.parts().8.len() == 0 {
                                assert(ks[8].len() == 0);
                            }
                        }
                        assert(reach_keys(ks) =~= Set::empty());
                    }
                    return rows;
                },
                Some((k, (a, b, c, d, e, f, g, h, j))) => {
                    proof {
                        let nks = self.key_seqs();
                        lemma_keys_of(cur.parts().0);
                        assert(ks[0].contains(ks[0][0]));
                        assert(in_any(ks, ks[0][0]));
                        assert(keys_of(cur.parts().0)[0] == cur.parts().0[0].0);
                        lemma_past_head(cur.parts().0, k);
                        lemma_keys_of(cur.parts().1);
                        assert(ks[1].contains(ks[1][0]));
                        assert(in_any(ks, ks[1][0]));
                        assert(keys_of(cur.parts().1)[0] == cur.parts().1[0].0);
                        lemma_past_head(cur.parts().1, k);
                        lemma_keys_of(cur.parts().2);
                        assert(ks[2].contains(ks[2][0]));
                        assert(in_any(ks, ks[2][0]));
                        assert(keys_of(cur.parts().2)[0] == cur.parts().2[0].0);
                        lemma_past_head(cur.parts().2, k);
                        lemma_keys_of(cur.parts().3);
                        assert(ks[3].contains(ks[3][0]));
                        assert(in_any(ks, ks[3][0]));
                        assert(keys_of(cur.parts().3)[0] == cur.parts().3[0].0);
                        lemma_past_head(cur.parts().3, k);
                        lemma_keys_of(cur.parts().4);
                        assert(ks[4].contains(ks[4][0]));
                        assert(in_any(ks, ks[4][0]));
                        assert(keys_of(cur.parts().4)[0] == cur.parts().4[0].0);
                        lemma_past_head(cur.parts().4, k);
                        lemma_keys_of(cur.parts().5);
                        assert(ks[5].contains(ks[5][0]));
                        assert(in_any(ks, ks[5][0]));
                        assert(keys_of(cur.parts().5)[0] == cur.parts().5[0].0);
                        lemma_past_head(cur.parts().5, k);
                        lemma_keys_of(cur.parts().6);
                        assert(ks[6].contains(ks[6][0]));
                        assert(in_any(ks, ks[6][0]));
                        assert(keys_of(cur.parts().6)[0] == cur.parts().6[0].0);
                        lemma_past_head(cur.parts().6, k);
                        lemma_keys_of(cur.parts().7);
                        assert(ks[7].contains(ks[7][0]));
                        assert(in_any(ks, ks[7][0]));
                        assert(keys_of(cur.parts().7)[0] == cur.parts().7[0].0);
                        lemma_past_head(cur.parts().7, k);
                        lemma_keys_of(cur.parts().8);
                        assert(ks[8].contains(ks[8][0]));
                        assert(in_any(ks, ks[8][0]));
                        assert(keys_of(cur.parts().8)[0] == cur.parts().8[0].0);
                        lemma_past_head(cur.parts().8, k);
                        assert(all_increasing(ks));
                        assert forall|i: int| 0 <= i < ks.len() implies #[trigger] nks[i] == (if ks[i][0] == k {
                            ks[i].drop_first()
                        } else {
                            ks[i]
                        }) by {
                            assert(nks[0] == keys_of(past_head(cur.parts().0, k)));
                            assert(nks[1] == keys_of(past_head(cur.parts().1, k)));
                            assert(nks[2] == keys_of(past_head(cur.parts().2, k)));
                            assert(nks[3] == keys_of(past_head(cur.parts().3, k)));
                            assert(nks[4] == keys_of(past_head(cur.parts().4, k)));
                            assert(nks[5] == keys_of(past_head(cur.parts().5, k)));
                            assert(nks[6] == keys_of(past_head(cur.parts().6, k)));
                            assert(nks[7] == keys_of(past_head(cur.parts().7, k)));
                            assert(nks[8] == keys_of(past_head(cur.parts().8, k)));
                        }
                        lemma_union_step(ks, nks, k);
                        lemma_reach_keys_finite(nks);
                    }
                    rows.push((k, (a, b, c, d, e, f, g, h, j)));
                },
            }
        }
    }
}

impl<A, B, C, D, E, F, G, H, J, L> KVOJoin<(Stream<A>, Stream<B>, Stream<C>, Stream<D>, Stream<E>, Stream<F>, Stream<G>, Stream<H>, Stream<J>, Stream<L>)> {
    /// The pairs left in each stream.
    pub closed spec fn parts(&self) -> (Seq<(u64, A)>, Seq<(u64, B)>, Seq<(u64, C)>, Seq<(u64, D)>, Seq<(u64, E)>, Seq<(u64, F)>, Seq<(u64, G)>, Seq<(u64, H)>, Seq<(u64, J)>, Seq<(u64, L)>) {
        (self.streams.0@, self.streams.1@, self.streams.2@, self.streams.3@, self.streams.4@, self.streams.5@, self.streams.6@, self.streams.7@, self.streams.8@, self.streams.9@)
    }

    /// The keys left in each stream.
    pub open spec fn key_seqs(&self) -> Seq<Seq<u64>> {
        seq![keys_of(self.parts().0), keys_of(self.parts().1), keys_of(self.parts().2), keys_of(self.parts().3), keys_of(self.parts().4), keys_of(self.parts().5), keys_of(self.parts().6), keys_of(self.parts().7), keys_of(self.parts().8), keys_of(self.parts().9)]
    }

    /// Every stream is in strictly increasing key order.
    pub open spec fn wf(&self) -> bool {
        ascending(self.parts().0) && ascending(self.parts().1) && ascending(self.parts().2) && ascending(self.parts().3) && ascending(self.parts().4) && ascending(self.parts().5) && ascending(self.parts().6) && ascending(self.parts().7) && ascending(self.parts().8) && ascending(self.parts().9)
    }

    /// The join of ten streams.
    pub fn of_ten(s0: Stream<A>, s1: Stream<B>, s2: Stream<C>, s3: Stream<D>, s4: Stream<E>, s5: Stream<F>, s6: Stream<G>, s7: Stream<H>, s8: Stream<J>, s9: Stream<L>) -> (j: Self)
        requires
            ascending(s0@),
            ascending(s1@),
            ascending(s2@),
            ascending(s3@),
            ascending(s4@),
            ascending(s5@),
            ascending(s6@),
            ascending(s7@),
            ascending(s8@),
            ascending(s9@),
        ensures
            j.parts() == (s0@, s1@, s2@, s3@, s4@, s5@, s6@, s7@, s8@, s9@),
            j.wf(),
    {
        KVOJoin { streams: (s0, s1, s2, s3, s4, s5, s6, s7, s8, s9) }
    }

    /// The next row: the least key left in any stream, with the value of
    /// each stream whose head carries it; `None` once any stream is
    /// exhausted.
    #[verifier::rlimit(100)]
    pub fn next(&mut self) -> (r: Option<(u64, (Option<A>, Option<B>, Option<C>, Option<D>, Option<E>, Option<F>, Option<G>, Option<H>, Option<J>, Option<L>))>)
        requires
            old(self).wf(),
        ensures
            final(self).wf(),
            r is None <==> old(self).parts().0.len() == 0 || old(self).parts().1.len() == 0 || old(self).parts().2.len() == 0 || old(self).parts().3.len() == 0 || old(self).parts().4.len() == 0 || old(self).parts().5.len() == 0 || old(self).parts().6.len() == 0 || old(self).parts().7.len() == 0 || old(self).parts().8.len() == 0 || old(self).parts().9.len() == 0,
            r is None ==> final(self).parts() == old(self).parts(),
            r matches Some((k, (a, b, c, d, e, f, g, h, j, l))) ==> {
                &&& least_held(old(self).key_seqs(), k)
                &&& a == head_slot(old(self).parts().0, k)
                &&& b == head_slot(old(self).parts().1, k)
                &&& c == head_slot(old(self).parts().2, k)
                &&& d == head_slot(old(self).parts().3, k)
                &&& e == head_slot(old(self).parts().4, k)
                &&& f == head_slot(old(self).parts().5, k)
                &&& g == head_slot(old(self).parts().6, k)
                &&& h == head_slot(old(self).parts().7, k)
                &&& j == head_slot(old(self).parts().8, k)
                &&& l == head_slot(old(self).parts().9, k)
                &&& (a is Some <==> keys_of(old(self).parts().0).contains(k))
                &&& (b is Some <==> keys_of(old(self).parts().1).contains(k))
                &&& (c is Some <==> keys_of(old(self).parts().2).contains(k))
                &&& (d is Some <==> keys_of(old(self).parts().3).contains(k))
                &&& (e is Some <==> keys_of(old(self).parts().4).contains(k))
                &&& (f is Some <==> keys_of(old(self).parts().5).contains(k))
                &&& (g is Some <==> keys_of(old(self).parts().6).contains(k))
                &&& (h is Some <==> keys_of(old(self).parts().7).contains(k))
                &&& (j is Some <==> keys_of(old(self).parts().8).contains(k))
                &&& (l is Some <==> keys_of(old(self).parts().9).contains(k))
                &&& final(self).parts().0 == past_head(old(self).parts().0, k)
                &&& final(self).parts().1 == past_head(old(self).parts().1, k)
                &&& final(self).parts().2 == past_head(old(self).parts().2, k)
                &&& final(self).parts().3 == past_head(old(self).parts().3, k)
                &&& final(self).parts().4 == past_head(old(self).parts().4, k)
                &&& final(self).parts().5 == past_head(old(self).parts().5, k)
                &&& final(self).parts().6 == past_head(old(self).parts().6, k)
                &&& final(self).parts().7 == past_head(old(self).parts().7, k)
                &&& final(self).parts().8 == past_head(old(self).parts().8, k)
                &&& final(self).parts().9 == past_head(old(self).parts().9, k)
            },
    {
        let ghost ks = self.key_seqs();
        let h0 = match self.streams.0.head_key() {
            Some(k) => k,
            None => return None,
        };
        let h1 = match self.streams.1.head_key() {
            Some(k) => k,
            None => return None,
        };
        let h2 = match self.streams.2.head_key() {
            Some(k) => k,
            None => return None,
        };
        let h3 = match self.streams.3.head_key() {
            Some(k) => k,
            None => return None,
        };
        let h4 = match self.streams.4.head_key() {
            Some(k) => k,
            None => return None,
        };
        let h5 = match self.streams.5.head_key() {
            Some(k) => k,
            None => return None,
        };
        let h6 = match self.streams.6.head_key() {
            Some(k) => k,
            None => return None,
        };
        let h7 = match self.streams.7.head_key() {
            Some(k) => k,
            None => return None,
        };
        let h8 = match self.streams.8.head_key() {
            Some(k) => k,
            None => return None,
        };
        let h9 = match self.streams.9.head_key() {
            Some(k) => k,
            None => return None,
        };
        proof {
            lemma_head(self.parts().0);
            lemma_head(self.parts().1);
            lemma_head(self.parts().2);
            lemma_head(self.parts().3);
            lemma_head(self.parts().4);
            lemma_head(self.parts().5);
            lemma_head(self.parts().6);
            lemma_head(self.parts().7);
            lemma_head(self.parts().8);
            lemma_head(self.parts().9);
        }
        let k = if h1 < h0 { h1 } else { h0 };
        let k = if h2 < k { h2 } else { k };
        let k = if h3 < k { h3 } else { k };
        let k = if h4 < k { h4 } else { k };
        let k = if h5 < k { h5 } else { k };
        let k = if h6 < k { h6 } else { k };
        let k = if h7 < k { h7 } else { k };
        let k = if h8 < k { h8 } else { k };
        let k = if h9 < k { h9 } else { k };
        let a = self.streams.0.take_if_key(k);
        let b = self.streams.1.take_if_key(k);
        let c = self.streams.2.take_if_key(k);
        let d = self.streams.3.take_if_key(k);
        let e = self.streams.4.take_if_key(k);
        let f = self.streams.5.take_if_key(k);
        let g = self.streams.6.take_if_key(k);
        let h = self.streams.7.take_if_key(k);
        let j = self.streams.8.take_if_key(k);
        let l = self.streams.9.take_if_key(k);
        proof {
            if h0 == k {
                assert(ks[0].contains(k));
            }
            if h1 == k {
                assert(ks[1].contains(k));
            }
            if h2 == k {
                assert(ks[2].contains(k));
            }
            if h3 == k {
                assert(ks[3].contains(k));
            }
            if h4 == k {
                assert(ks[4].contains(k));
            }
            if h5 == k {
                assert(ks[5].contains(k));
            }
            if h6 == k {
                assert(ks[6].contains(k));
            }
            if h7 == k {
                assert(ks[7].contains(k));
            }
            if h8 == k {
                assert(ks[8].contains(k));
            }
            if h9 == k {
                assert(ks[9].contains(k));
            }
            assert(in_any(ks, k));
            assert forall|x: u64| x < k implies !in_any(ks, x) by {
                if in_any(ks, x) {
                    let i = choose|i: int| 0 <= i < ks.len() && (#[trigger] ks[i]).contains(x);
                    assert(i == 0 || i == 1 || i == 2 || i == 3 || i == 4 || i == 5 || i == 6 || i == 7 || i == 8 || i == 9);
                }
            }
        }
        Some((k, (a, b, c, d, e, f, g, h, j, l)))
    }

    /// Every row, in order, until the join ends: one for each key that some
    /// stream holds and that lies at or below the last key of every stream,
    /// in increasing key order. A slot is present exactly where its stream
    /// holds the row's key, and then carries that stream's value.
    #[verifier::rlimit(100)]
    pub fn rows(&mut self) -> (rows: Vec<(u64, (Option<A>, Option<B>, Option<C>, Option<D>, Option<E>, Option<F>, Option<G>, Option<H>, Option<J>, Option<L>))>)
        requires
            old(self).wf(),
        ensures
            final(self).wf(),
            rows@.len() == reach_keys(old(self).key_seqs()).len(),
            forall|i: int| 0 <= i < rows@.len() ==> reach_keys(old(self).key_seqs()).contains(#[trigger] rows@[i].0),
            forall|i: int, j: int| 0 <= i < j < rows@.len() ==> rows@[i].0 < rows@[j].0,
            forall|i: int|
                0 <= i < rows@.len() ==> {
                    &&& ((#[trigger] rows@[i]).1.0 is Some <==> keys_of(old(self).parts().0).contains(rows@[i].0))
                    &&& (rows@[i].1.1 is Some <==> keys_of(old(self).parts().1).contains(rows@[i].0))
                    &&& (rows@[i].1.2 is Some <==> keys_of(old(self).parts().2).contains(rows@[i].0))
                    &&& (rows@[i].1.3 is Some <==> keys_of(old(self).parts().3).contains(rows@[i].0))
                    &&& (rows@[i].1.4 is Some <==> keys_of(old(self).parts().4).contains(rows@[i].0))
                    &&& (rows@[i].1.5 is Some <==> keys_of(old(self).parts().5).contains(rows@[i].0))
                    &&& (rows@[i].1.6 is Some <==> keys_of(old(self).parts().6).contains(rows@[i].0))
                    &&& (rows@[i].1.7 is Some <==> keys_of(old(self).parts().7).contains(rows@[i].0))
                    &&& (rows@[i].1.8 is Some <==> keys_of(old(self).parts().8).contains(rows@[i].0))
                    &&& (rows@[i].1.9 is Some <==> keys_of(old(self).parts().9).contains(rows@[i].0))
                    &&& (rows@[i].1.0 matches Some(v) ==> old(self).parts().0.contains((rows@[i].0, v)))
                    &&& (rows@[i].1.1 matches Some(v) ==> old(self).parts().1.contains((rows@[i].0, v)))
                    &&& (rows@[i].1.2 matches Some(v) ==> old(self).parts().2.contains((rows@[i].0, v)))
                    &&& (rows@[i].1.3 matches Some(v) ==> old(self).parts().3.contains((rows@[i].0, v)))
                    &&& (rows@[i].1.4 matches Some(v) ==> old(self).parts().4.contains((rows@[i].0, v)))
                    &&& (rows@[i].1.5 matches Some(v) ==> old(self).parts().5.contains((rows@[i].0, v)))
                    &&& (rows@[i].1.6 matches Some(v) ==> old(self).parts().6.contains((rows@[i].0, v)))
                    &&& (rows@[i].1.7 matches Some(v) ==> old(self).parts().7.contains((rows@[i].0, v)))
                    &&& (rows@[i].1.8 matches Some(v) ==> old(self).parts().8.contains((rows@[i].0, v)))
                    &&& (rows@[i].1.9 matches Some(v) ==> old(self).parts().9.contains((rows@[i].0, v)))
                },
    {
        let ghost start = *self;
        let mut rows: Vec<(u64, (Option<A>, Option<B>, Option<C>, Option<D>, Option<E>, Option<F>, Option<G>, Option<H>, Option<J>, Option<L>))> = Vec::new();
        proof {
            lemma_reach_keys_finite(start.key_seqs());
        }
        loop
            invariant
                self.wf(),
                start == *old(self),
                reach_keys(self.key_seqs()).finite(),
                reach_keys(start.key_seqs()).finite(),
                rows@.len() + reach_keys(self.key_seqs()).len() == reach_keys(start.key_seqs()).len(),
                forall|x: u64| reach_keys(self.key_seqs()).contains(x) ==> reach_keys(start.key_seqs()).contains(x),
                forall|i: int| 0 <= i < rows@.len() ==> reach_keys(start.key_seqs()).contains(#[trigger] rows@[i].0),
                forall|i: int, x: u64|
                    0 <= i < rows@.len() && #[trigger] reach_keys(self.key_seqs()).contains(x) ==> #[trigger] rows@[i].0 < x,
                forall|i: int, j: int| 0 <= i < j < rows@.len() ==> rows@[i].0 < rows@[j].0,
                forall|x: u64| #[trigger] keys_of(self.parts().0).contains(x) <==> keys_of(start.parts().0).contains(x)
                    && (rows@.len() == 0 || rows@.last().0 < x),
                forall|x: u64| #[trigger] keys_of(self.parts().1).contains(x) <==> keys_of(start.parts().1).contains(x)
                    && (rows@.len() == 0 || rows@.last().0 < x),
                forall|x: u64| #[trigger] keys_of(self.parts().2).contains(x) <==> keys_of(start.parts().2).contains(x)
                    && (rows@.len() == 0 || rows@.last().0 < x),
                forall|x: u64| #[trigger] keys_of(self.parts().3).contains(x) <==> keys_of(start.parts().3).contains(x)
                    && (rows@.len() == 0 || rows@.last().0 < x),
                forall|x: u64| #[trigger] keys_of(self.parts().4).contains(x) <==> keys_of(start.parts().4).contains(x)
                    && (rows@.len() == 0 || rows@.last().0 < x),
                forall|x: u64| #[trigger] keys_of(self.parts().5).contains(x) <==> keys_of(start.parts().5).contains(x)
                    && (rows@.len() == 0 || rows@.last().0 < x),
                forall|x: u64| #[trigger] keys_of(self.parts().6).contains(x) <==> keys_of(start.parts().6).contains(x)
                    && (rows@.len() == 0 || rows@.last().0 < x),
                forall|x: u64| #[trigger] keys_of(self.parts().7).contains(x) <==> keys_of(start.parts().7).contains(x)
                    && (rows@.len() == 0 || rows@.last().0 < x),
                forall|x: u64| #[trigger] keys_of(self.parts().8).contains(x) <==> keys_of(start.parts().8).contains(x)
                    && (rows@.len() == 0 || rows@.last().0 < x),
                forall|x: u64| #[trigger] keys_of(self.parts().9).contains(x) <==> keys_of(start.parts().9).contains(x)
                    && (rows@.len() == 0 || rows@.last().0 < x),
                forall|p: (u64, A)| self.parts().0.contains(p) ==> start.parts().0.contains(p),
                forall|p: (u64, B)| self.parts().1.contains(p) ==> start.parts().1.contains(p),
                forall|p: (u64, C)| self.parts().2.contains(p) ==> start.parts().2.contains(p),
                forall|p: (u64, D)| self.parts().3.contains(p) ==> start.parts().3.contains(p),
                forall|p: (u64, E)| self.parts().4.contains(p) ==> start.parts().4.contains(p),
                forall|p: (u64, F)| self.parts().5.contains(p) ==> start.parts().5.contains(p),
                forall|p: (u64, G)| self.parts().6.contains(p) ==> start.parts().6.contains(p),
                forall|p: (u64, H)| self.parts().7.contains(p) ==> start.parts().7.contains(p),
                forall|p: (u64, J)| self.parts().8.contains(p) ==> start.parts().8.contains(p),
                forall|p: (u64, L)| self.parts().9.contains(p) ==> start.parts().9.contains(p),
                forall|i: int|
                    0 <= i < rows@.len() ==> {
                        &&& ((#[trigger] rows@[i]).1.0 is Some <==> keys_of(start.parts().0).contains(rows@[i].0))
                        &&& (rows@[i].1.1 is Some <==> keys_of(start.parts().1).contains(rows@[i].0))
                        &&& (rows@[i].1.2 is Some <==> keys_of(start.parts().2).contains(rows@[i].0))
                        &&& (rows@[i].1.3 is Some <==> keys_of(start.parts().3).contains(rows@[i].0))
                        &&& (rows@[i].1.4 is Some <==> keys_of(start.parts().4).contains(rows@[i].0))
                        &&& (rows@[i].1.5 is Some <==> keys_of(start.parts().5).contains(rows@[i].0))
                        &&& (rows@[i].1.6 is Some <==> keys_of(start.parts().6).contains(rows@[i].0))
                        &&& (rows@[i].1.7 is Some <==> keys_of(start.parts().7).contains(rows@[i].0))
                        &&& (rows@[i].1.8 is Some <==> keys_of(start.parts().8).contains(rows@[i].0))
                        &&& (rows@[i].1.9 is Some <==> keys_of(start.parts().9).contains(rows@[i].0))
                        &&& (rows@[i].1.0 matches Some(v) ==> start.parts().0.contains((rows@[i].0, v)))
                        &&& (rows@[i].1.1 matches Some(v) ==> start.parts().1.contains((rows@[i].0, v)))
                        &&& (rows@[i].1.2 matches Some(v) ==> start.parts().2.contains((rows@[i].0, v)))
                        &&& (rows@[i].1.3 matches Some(v) ==> start.parts().3.contains((rows@[i].0, v)))
                        &&& (rows@[i].1.4 matches Some(v) ==> start.parts().4.contains((rows@[i].0, v)))
                        &&& (rows@[i].1.5 matches Some(v) ==> start.parts().5.contains((rows@[i].0, v)))
                        &&& (rows@[i].1.6 matches Some(v) ==> start.parts().6.contains((rows@[i].0, v)))
                        &&& (rows@[i].1.7 matches Some(v) ==> start.parts().7.contains((rows@[i].0, v)))
                        &&& (rows@[i].1.8 matches Some(v) ==> start.parts().8.contains((rows@[i].0, v)))
                        &&& (rows@[i].1.9 matches Some(v) ==> start.parts().9.contains((rows@[i].0, v)))
                    },
            decreases reach_keys(self.key_seqs()).len(),
        {
            let ghost cur = *self;
            let ghost ks = cur.key_seqs();
            match self.next() {
                None => {
                    proof {
                        lemma_reach_keys_finite(ks);
                        assert forall|x: u64| !reach_keys(ks).contains(x) by {
                            if cur.parts().0.len() == 0 {
                                assert(ks[0].len() == 0);
                            }
                            if cur.parts().1.len() == 0 {
                                assert(ks[1].len() == 0);
                            }
                            if cur.parts().2.len() == 0 {
                                assert(ks[2].len() == 0);
                            }
                            if cur.parts().3.len() == 0 {
                                assert(ks[3].len() == 0);
                            }
                            if cur.parts().4.len() == 0 {
                                assert(ks[4].len() == 0);
                            }
                            if cur.parts().5.len() == 0 {
                                assert(ks[5].len() == 0);
                            }
                            if cur.parts().6.len() == 0 {
                                assert(ks[6].len() == 0);
                            }
                            if cur.parts().7.len() == 0 {
                                assert(ks[7].len() == 0);
                            }
                            if cur.parts().8.len() == 0 {
                                assert(ks[8].len() == 0);
                            }
                            if cur.parts().9.len() == 0 {
                                assert(ks[9].len() == 0);
                            }
                        }
                        assert(reach_keys(ks) =~= Set::empty());
                    }
                    return rows;
                },
                Some((k, (a, b, c, d, e, f, g, h, j, l))) => {
                    proof {
                        let nks = self.key_seqs();
                        lemma_keys_of(cur.parts().0);
                        assert(ks[0].contains(ks[0][0]));
                        assert(in_any(ks, ks[0][0]));
                        assert(keys_of(cur.parts().0)[0] == cur.parts().0[0].0);
                        lemma_past_head(cur.parts().0, k);
                        lemma_keys_of(cur.parts().1);
                        assert(ks[1].contains(ks[1][0]));
                        assert(in_any(ks, ks[1][0]));
                        assert(keys_of(cur.parts().1)[0] == cur.parts().1[0].0);
                        lemma_past_head(cur.parts().1, k);
                        lemma_keys_of(cur.parts().2);
                        assert(ks[2].contains(ks[2][0]));
                        assert(in_any(ks, ks[2][0]));
                        assert(keys_of(cur.parts().2)[0] == cur.parts().2[0].0);
                        lemma_past_head(cur.parts().2, k);
                        lemma_keys_of(cur.parts().3);
                        assert(ks[3].contains(ks[3][0]));
                        assert(in_any(ks, ks[3][0]));
                        assert(keys_of(cur.parts().3)[0] == cur.parts().3[0].0);
                        lemma_past_head(cur.parts().3, k);
                        lemma_keys_of(cur.parts().4);
                        assert(ks[4].contains(ks[4][0]));
                        assert(in_any(ks, ks[4][0]));
                        assert(keys_of(cur.parts().4)[0] == cur.parts().4[0].0);
                        lemma_past_head(cur.parts().4, k);
                        lemma_keys_of(cur.parts().5);
                        assert(ks[5].contains(ks[5][0]));
                        assert(in_any(ks, ks[5][0]));
                        assert(keys_of(cur.parts().5)[0] == cur.parts().5[0].0);
                        lemma_past_head(cur.parts().5, k);
                        lemma_keys_of(cur.parts().6);
                        assert(ks[6].contains(ks[6][0]));
                        assert(in_any(ks, ks[6][0]));
                        assert(keys_of(cur.parts().6)[0] == cur.parts().6[0].0);
                        lemma_past_head(cur.parts().6, k);
                        lemma_keys_of(cur.parts().7);
                        assert(ks[7].contains(ks[7][0]));
                        assert(in_any(ks, ks[7][0]));
                        assert(keys_of(cur.parts().7)[0] == cur.parts().7[0].0);
                        lemma_past_head(cur.parts().7, k);
                        lemma_keys_of(cur.parts().8);
                        assert(ks[8].contains(ks[8][0]));
                        assert(in_any(ks, ks[8][0]));
                        assert(keys_of(cur.parts().8)[0] == cur.parts().8[0].0);
                        lemma_past_head(cur.parts().8, k);
                        lemma_keys_of(cur.parts().9);
                        assert(ks[9].contains(ks[9][0]));
                        assert(in_any(ks, ks[9][0]));
                        assert(keys_of(cur.parts().9)[0] == cur.parts().9[0].0);
                        lemma_past_head(cur.parts().9, k);
                        assert(all_increasing(ks));
                        assert forall|i: int| 0 <= i < ks.len() implies #[trigger] nks[i] == (if ks[i][0] == k {
                            ks[i].drop_first()
                        } else {
                            ks[i]
                        }) by {
                            assert(nks[0] == keys_of(past_head(cur.parts().0, k)));
                            assert(nks[1] == keys_of(past_head(cur.parts().1, k)));
                            assert(nks[2] == keys_of(past_head(cur.parts().2, k)));
                            assert(nks[3] == keys_of(past_head(cur.parts().3, k)));
                            assert(nks[4] == keys_of(past_head(cur.parts().4, k)));
                            assert(nks[5] == keys_of(past_head(cur.parts().5, k)));
                            assert(nks[6] == keys_of(past_head(cur.parts().6, k)));
                            assert(nks[7] == keys_of(past_head(cur.parts().7, k)));
                            assert(nks[8] == keys_of(past_head(cur.parts().8, k)));
                            assert(nks[9] == keys_of(past_head(cur.parts().9, k)));
                        }
                        lemma_union_step(ks, nks, k);
                        lemma_reach_keys_finite(nks);
                    }
                    rows.push((k, (a, b, c, d, e, f, g, h, j, l)));
                },
            }
        }
    }
}

} // verus!
