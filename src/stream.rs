//! A pull-based stream of key-value pairs in ascending key order.
use vstd::prelude::*;

verus! {

/// Keys of a sequence of pairs strictly increase.
pub open spec fn ascending<V>(s: Seq<(u64, V)>) -> bool {
    forall|i: int, j: int| 0 <= i < j < s.len() ==> s[i].0 < s[j].0
}

/// The keys of a sequence of pairs, in order.
pub open spec fn keys_of<V>(s: Seq<(u64, V)>) -> Seq<u64> {
    s.map_values(|p: (u64, V)| p.0)
}

/// A stream of pairs, consumed from the front. The pairs are held in reverse
/// order so that taking the head is a `pop`.
pub struct Stream<V> {
    rev: Vec<(u64, V)>,
}

impl<V> View for Stream<V> {
    type V = Seq<(u64, V)>;

    /// The pairs still to come, head first.
    closed spec fn view(&self) -> Seq<(u64, V)> {
        let n = self.rev@.len();
        Seq::new(n, |i: int| self.rev@[n - 1 - i])
    }
}

impl<V> Stream<V> {
    /// A stream over `items`, whose keys must strictly increase.
    pub fn new(items: Vec<(u64, V)>) -> (s: Self)
        requires
            ascending(items@),
        ensures
            s@ == items@,
    {
        let mut items = items;
        let ghost orig = items@;
        let mut rev: Vec<(u64, V)> = Vec::new();
        while items.len() > 0
            invariant
                orig.len() == items@.len() + rev@.len(),
                items@ == orig.take(items@.len() as int),
                forall|i: int| 0 <= i < rev@.len() ==> rev@[i] == orig[orig.len() - 1 - i],
            decreases items.len(),
        {
            let p = items.pop().unwrap();
            rev.push(p);
        }
        assert(Seq::new(rev@.len(), |i: int| rev@[rev@.len() - 1 - i]) =~= orig);
        Stream { rev }
    }

    /// The key at the head of the stream, if any.
    pub fn head_key(&self) -> (r: Option<u64>)
        ensures
            r == (if self@.len() == 0 { None } else { Some(self@[0].0) }),
    {
        let n = self.rev.len();
        if n == 0 {
            None
        } else {
            Some(self.rev[n - 1].0)
        }
    }

    /// Takes the head of the stream, if any.
    pub fn pull(&mut self) -> (r: Option<(u64, V)>)
        ensures
            old(self)@.len() == 0 ==> r is None && final(self)@ == old(self)@,
            old(self)@.len() > 0 ==> r == Some(old(self)@[0]) && final(self)@
                == old(self)@.drop_first(),
    {
        let r = self.rev.pop();
        assert(self@ =~= old(self)@.drop_first() || old(self)@.len() == 0);
        r
    }

    /// Takes the head pair if its key is `k`, and gives its value.
    pub fn take_if_key(&mut self, k: u64) -> (r: Option<V>)
        ensures
            r == head_slot(old(self)@, k),
            final(self)@ == past_head(old(self)@, k),
    {
        match self.head_key() {
            Some(h) => {
                if h == k {
                    match self.pull() {
                        Some((_, v)) => Some(v),
                        None => None,
                    }
                } else {
                    None
                }
            },
            None => None,
        }
    }

    /// Drops the head pair if its key is below `k`.
    pub fn skip_below(&mut self, k: u64)
        ensures
            final(self)@ == (if old(self)@.len() > 0 && old(self)@[0].0 < k {
                old(self)@.drop_first()
            } else {
                old(self)@
            }),
    {
        match self.head_key() {
            Some(h) => {
                if h < k {
                    let _ = self.pull();
                }
            },
            None => {},
        }
    }

    /// Whether no pair is left.
    pub fn is_empty(&self) -> (r: bool)
        ensures
            r == (self@.len() == 0),
    {
        self.rev.len() == 0
    }
}

/// `after` is what is left of `before` once the pair `(k, v)` and every pair
/// ahead of it have been taken.
pub open spec fn taken_through<V>(before: Seq<(u64, V)>, after: Seq<(u64, V)>, k: u64, v: V) -> bool {
    exists|j: int| 0 <= j < before.len() && before[j] == (k, v) && after == before.skip(j + 1)
}

/// The value of the head pair when its key is `k`; `None` otherwise.
pub open spec fn head_slot<V>(s: Seq<(u64, V)>, k: u64) -> Option<V> {
    if s.len() > 0 && s[0].0 == k {
        Some(s[0].1)
    } else {
        None
    }
}

/// `s` without its head pair when that pair's key is `k`; `s` otherwise.
pub open spec fn past_head<V>(s: Seq<(u64, V)>, k: u64) -> Seq<(u64, V)> {
    if s.len() > 0 && s[0].0 == k {
        s.drop_first()
    } else {
        s
    }
}

/// The keys left after the pair at `j`, whose key is `k`, are exactly the
/// keys above `k`.
pub proof fn lemma_keys_past<V>(s: Seq<(u64, V)>, j: int, k: u64, t: Seq<(u64, V)>)
    requires
        ascending(s),
        0 <= j < s.len(),
        s[j].0 == k,
        t == s.skip(j + 1),
    ensures
        forall|x: u64| #[trigger] keys_of(t).contains(x) <==> keys_of(s).contains(x) && x > k,
{
    assert forall|x: u64| #[trigger] keys_of(t).contains(x) <==> keys_of(s).contains(x) && x > k by {
        if keys_of(t).contains(x) {
            let i = choose|i: int| 0 <= i < keys_of(t).len() && keys_of(t)[i] == x;
            assert(keys_of(s)[i + j + 1] == x);
        }
        if keys_of(s).contains(x) && x > k {
            let i = choose|i: int| 0 <= i < keys_of(s).len() && keys_of(s)[i] == x;
            if i <= j {
                assert(s[i].0 <= s[j].0);
            }
            assert(keys_of(t)[i - j - 1] == x);
        }
    }
}

/// The keys of an ascending sequence strictly increase, and a key is held
/// exactly where some pair carries it.
pub proof fn lemma_keys_of<V>(s: Seq<(u64, V)>)
    ensures
        ascending(s) ==> forall|i: int, j: int|
            0 <= i < j < keys_of(s).len() ==> keys_of(s)[i] < keys_of(s)[j],
        keys_of(s).len() == s.len(),
        forall|i: int| 0 <= i < s.len() ==> #[trigger] keys_of(s)[i] == s[i].0,
        s.len() > 0 ==> keys_of(s.drop_first()) == keys_of(s).drop_first(),
{
    if s.len() > 0 {
        assert(keys_of(s.drop_first()) =~= keys_of(s).drop_first());
    }
}

/// In an ascending sequence the head key is the least, and dropping the head
/// removes exactly that key.
pub proof fn lemma_head<V>(s: Seq<(u64, V)>)
    requires
        ascending(s),
        s.len() > 0,
    ensures
        forall|x: u64| #[trigger] keys_of(s).contains(x) ==> x >= s[0].0,
        forall|x: u64|
            #[trigger] keys_of(s.drop_first()).contains(x) <==> keys_of(s).contains(x) && x != s[0].0,
        keys_of(s).contains(s[0].0),
        ascending(s.drop_first()),
{
    lemma_keys_of(s);
    assert(s.skip(1) =~= s.drop_first());
    lemma_keys_past(s, 0, s[0].0, s.drop_first());
    assert(keys_of(s)[0] == s[0].0);
    assert forall|x: u64| #[trigger] keys_of(s).contains(x) implies x >= s[0].0 by {
        let i = choose|i: int| 0 <= i < keys_of(s).len() && keys_of(s)[i] == x;
        if i > 0 {
            assert(s[0].0 < s[i].0);
        }
    }
    assert forall|x: u64|
        #[trigger] keys_of(s.drop_first()).contains(x) <==> keys_of(s).contains(x) && x != s[0].0 by {
    }
}

/// What a stream keeps once `(k, v)` has been taken: the pairs above `k`,
/// still ascending, each one from before.
pub proof fn lemma_taken_through<V>(before: Seq<(u64, V)>, after: Seq<(u64, V)>, k: u64, v: V)
    requires
        ascending(before),
        taken_through(before, after, k, v),
    ensures
        forall|x: u64| #[trigger] keys_of(after).contains(x) <==> keys_of(before).contains(x) && x > k,
        ascending(after),
        before.contains((k, v)),
        forall|p: (u64, V)| after.contains(p) ==> before.contains(p),
{
    let j = choose|j: int| 0 <= j < before.len() && before[j] == (k, v) && after == before.skip(j + 1);
    lemma_keys_past(before, j, k, after);
    assert(before[j] == (k, v));
    assert forall|p: (u64, V)| after.contains(p) implies before.contains(p) by {
        let i = choose|i: int| 0 <= i < after.len() && after[i] == p;
        assert(before[i + j + 1] == p);
    }
    assert forall|i: int, i2: int| 0 <= i < i2 < after.len() implies after[i].0 < after[i2].0 by {
        assert(after[i] == before[i + j + 1]);
        assert(after[i2] == before[i2 + j + 1]);
    }
}

/// What a stream keeps and yields when a union step takes key `k`, which is
/// at most its head key.
pub proof fn lemma_past_head<V>(s: Seq<(u64, V)>, k: u64)
    requires
        ascending(s),
        s.len() > 0,
        k <= s[0].0,
    ensures
        forall|x: u64|
            #[trigger] keys_of(past_head(s, k)).contains(x) <==> keys_of(s).contains(x) && x > k,
        ascending(past_head(s, k)),
        forall|p: (u64, V)| past_head(s, k).contains(p) ==> s.contains(p),
        head_slot(s, k) is Some <==> keys_of(s).contains(k),
        head_slot(s, k) matches Some(v) ==> s.contains((k, v)),
        keys_of(past_head(s, k)) == (if keys_of(s)[0] == k {
            keys_of(s).drop_first()
        } else {
            keys_of(s)
        }),
{
    lemma_head(s);
    lemma_keys_of(s);
    assert(s.contains(s[0]));
    assert forall|p: (u64, V)| past_head(s, k).contains(p) implies s.contains(p) by {
        if s[0].0 == k {
            let i = choose|i: int| 0 <= i < s.len() - 1 && s.drop_first()[i] == p;
            assert(s[i + 1] == p);
        }
    }
}

} // verus!
