use vstd::prelude::*;

verus! {

/// One occupied bucket: its key and how many samples fell into it.
#[derive(Clone, Copy, Debug, PartialEq, Eq, Structural)]
pub struct Bin {
    pub key: i32,
    pub count: u64,
}

/// Sum of the counts of a sequence of bins.
pub open spec fn total(s: Seq<Bin>) -> int
    decreases s.len(),
{
    if s.len() == 0 {
        0
    } else {
        total(s.drop_last()) + s.last().count
    }
}

/// Keys strictly increase along the sequence.
pub open spec fn ordered(s: Seq<Bin>) -> bool {
    forall|i: int, j: int| 0 <= i < j < s.len() ==> s[i].key < s[j].key
}

/// No bin is empty.
pub open spec fn occupied(s: Seq<Bin>) -> bool {
    forall|i: int| 0 <= i < s.len() ==> s[i].count > 0
}

/// How many bins have a key below `key`.
pub open spec fn below(s: Seq<Bin>, key: i32) -> nat
    decreases s.len(),
{
    if s.len() == 0 {
        0
    } else {
        below(s.drop_last(), key) + if s.last().key < key {
            1nat
        } else {
            0nat
        }
    }
}

/// Folds the lowest bin into its neighbour: the second bin keeps its key and takes both counts.
pub open spec fn fold_lowest(s: Seq<Bin>) -> Seq<Bin> {
    seq![Bin { key: s[1].key, count: (s[0].count + s[1].count) as u64 }] + s.subrange(
        2,
        s.len() as int,
    )
}

/// The bins after `n` samples with key `key` were counted, under a budget of `limit` bins.
pub open spec fn added(s: Seq<Bin>, key: i32, n: u64, limit: nat) -> Seq<Bin> {
    let p = below(s, key) as int;
    if p < s.len() && s[p].key == key {
        s.update(p, Bin { key, count: (s[p].count + n) as u64 })
    } else {
        let t = s.insert(p, Bin { key, count: n });
        if t.len() > limit {
            fold_lowest(t)
        } else {
            t
        }
    }
}

/// The bins after every bin of `o`, lowest key first, was counted into `s`.
pub open spec fn merged(s: Seq<Bin>, o: Seq<Bin>, limit: nat) -> Seq<Bin>
    decreases o.len(),
{
    if o.len() == 0 {
        s
    } else {
        merged(added(s, o[0].key, o[0].count, limit), o.drop_first(), limit)
    }
}

/// The key of the bin that holds the sample of rank `rank` (from 0), lowest key first.
pub open spec fn key_at(s: Seq<Bin>, rank: int) -> i32
    decreases s.len(),
{
    if s.len() == 0 {
        0
    } else if rank < s[0].count {
        s[0].key
    } else {
        key_at(s.drop_first(), rank - s[0].count)
    }
}

pub proof fn lemma_total_concat(a: Seq<Bin>, b: Seq<Bin>)
    ensures
        total(a + b) == total(a) + total(b),
    decreases b.len(),
{
    if b.len() == 0 {
        assert(a + b =~= a);
    } else {
        assert((a + b).drop_last() =~= a + b.drop_last());
        lemma_total_concat(a, b.drop_last());
    }
}

pub proof fn lemma_total_nonneg(s: Seq<Bin>)
    ensures
        total(s) >= 0,
    decreases s.len(),
{
    if s.len() > 0 {
        lemma_total_nonneg(s.drop_last());
    }
}

/// The total splits around position `i`.
pub proof fn lemma_total_split(s: Seq<Bin>, i: int)
    requires
        0 <= i < s.len(),
    ensures
        total(s) == total(s.subrange(0, i)) + s[i].count + total(s.subrange(i + 1, s.len() as int)),
        total(s.subrange(0, i + 1)) == total(s.subrange(0, i)) + s[i].count,
        s[i].count <= total(s),
{
    let a = s.subrange(0, i);
    let b = seq![s[i]];
    let c = s.subrange(i + 1, s.len() as int);
    reveal_with_fuel(total, 2);
    assert(b.drop_last() =~= Seq::<Bin>::empty());
    assert(total(b) == s[i].count);
    assert(s =~= a + b + c);
    lemma_total_concat(a + b, c);
    lemma_total_concat(a, b);
    assert(b.drop_last() =~= Seq::<Bin>::empty());
    assert(s.subrange(0, i + 1) =~= a + b);
    lemma_total_nonneg(a);
    lemma_total_nonneg(c);
}

/// In an ordered sequence, `below` is where the keys under `key` end.
pub proof fn lemma_below(s: Seq<Bin>, key: i32)
    requires
        ordered(s),
    ensures
        below(s, key) <= s.len(),
        forall|i: int| 0 <= i < below(s, key) ==> s[i].key < key,
        forall|i: int| below(s, key) <= i < s.len() ==> s[i].key >= key,
    decreases s.len(),
{
    if s.len() > 0 {
        let t = s.drop_last();
        lemma_below(t, key);
        let last = s.len() - 1;
        if s.last().key < key {
            if below(t, key) < t.len() {
                assert(t[below(t, key) as int].key < s[last].key);
            }
            assert(below(t, key) == t.len());
        }
        assert forall|i: int| 0 <= i < below(s, key) implies s[i].key < key by {
            if i < last {
                assert(s[i] == t[i]);
            }
        }
        assert forall|i: int| below(s, key) <= i < s.len() implies s[i].key >= key by {
            if i < last {
                assert(s[i] == t[i]);
            }
        }
    }
}

proof fn lemma_total_fold(t: Seq<Bin>)
    requires
        t.len() >= 2,
        total(t) <= u64::MAX,
    ensures
        total(fold_lowest(t)) == total(t),
        fold_lowest(t)[0].count == t[0].count + t[1].count,
{
    lemma_total_split(t, 0);
    lemma_total_split(t, 1);
    assert(t.subrange(0, 0) =~= Seq::<Bin>::empty());
    let f = seq![Bin { key: t[1].key, count: (t[0].count + t[1].count) as u64 }];
    let rest = t.subrange(2, t.len() as int);
    lemma_total_concat(f, rest);
    lemma_total_nonneg(rest);
    reveal_with_fuel(total, 2);
    assert(f.drop_last() =~= Seq::<Bin>::empty());
    assert(total(f) == f[0].count);
    assert(fold_lowest(t) =~= f + rest);
    assert(t.subrange(2, t.len() as int) =~= rest);
}

proof fn lemma_bumped(s: Seq<Bin>, p: int, n: u64)
    requires
        0 <= p < s.len(),
        total(s) + n <= u64::MAX,
    ensures
        total(s.update(p, Bin { key: s[p].key, count: (s[p].count + n) as u64 })) == total(s) + n,
{
    let u = s.update(p, Bin { key: s[p].key, count: (s[p].count + n) as u64 });
    lemma_total_split(s, p);
    lemma_total_split(u, p);
    assert(u.subrange(0, p) =~= s.subrange(0, p));
    assert(u.subrange(p + 1, u.len() as int) =~= s.subrange(p + 1, s.len() as int));
}

proof fn lemma_inserted(s: Seq<Bin>, key: i32, n: u64)
    requires
        ordered(s),
        !(below(s, key) < s.len() && s[below(s, key) as int].key == key),
    ensures
        ordered(s.insert(below(s, key) as int, Bin { key, count: n })),
        total(s.insert(below(s, key) as int, Bin { key, count: n })) == total(s) + n,
{
    lemma_below(s, key);
    let p = below(s, key) as int;
    let b = seq![Bin { key, count: n }];
    let t = s.insert(p, Bin { key, count: n });
    let a = s.subrange(0, p);
    let c = s.subrange(p, s.len() as int);
    assert(t =~= a + b + c);
    assert(s =~= a + c);
    lemma_total_concat(a, c);
    lemma_total_concat(a + b, c);
    lemma_total_concat(a, b);
    reveal_with_fuel(total, 2);
    assert(b.drop_last() =~= Seq::<Bin>::empty());
    assert(total(b) == n);
    assert forall|i: int, j: int| 0 <= i < j < t.len() implies t[i].key < t[j].key by {
        if j == p {
            assert(s[i].key < key);
        } else if i == p {
            assert(s[j - 1].key >= key);
            assert(s[j - 1].key != key) by {
                if j - 1 > p {
                    assert(s[p].key < s[j - 1].key);
                }
            }
        }
    }
}

/// What `added` does to the total, the order and the budget.
pub proof fn lemma_added(s: Seq<Bin>, key: i32, n: u64, limit: nat)
    requires
        ordered(s),
        occupied(s),
        s.len() <= limit,
        limit >= 1,
        n > 0,
        total(s) + n <= u64::MAX,
    ensures
        ordered(added(s, key, n, limit)),
        occupied(added(s, key, n, limit)),
        1 <= added(s, key, n, limit).len() <= limit,
        total(added(s, key, n, limit)) == total(s) + n,
{
    lemma_below(s, key);
    let p = below(s, key) as int;
    if p < s.len() && s[p].key == key {
        lemma_bumped(s, p, n);
        lemma_total_split(s, p);
    } else {
        lemma_inserted(s, key, n);
        let t = s.insert(p, Bin { key, count: n });
        if t.len() > limit {
            lemma_total_fold(t);
            let f = fold_lowest(t);
            assert forall|i: int, j: int| 0 <= i < j < f.len() implies f[i].key < f[j].key by {
                assert(t[i + 1].key < t[j + 1].key);
            }
            assert forall|i: int| 0 <= i < f.len() implies f[i].count > 0 by {
                if i > 0 {
                    assert(f[i] == t[i + 1]);
                }
            }
        }
    }
}

proof fn lemma_total_first(o: Seq<Bin>)
    requires
        o.len() > 0,
    ensures
        total(o) == o[0].count + total(o.drop_first()),
{
    lemma_total_split(o, 0);
    assert(o.subrange(0, 0) =~= Seq::<Bin>::empty());
    assert(o.subrange(1, o.len() as int) =~= o.drop_first());
}

/// What `merged` does to the total, the order and the budget.
pub proof fn lemma_merged(s: Seq<Bin>, o: Seq<Bin>, limit: nat)
    requires
        ordered(s),
        occupied(s),
        occupied(o),
        s.len() <= limit,
        limit >= 1,
        total(s) + total(o) <= u64::MAX,
    ensures
        ordered(merged(s, o, limit)),
        occupied(merged(s, o, limit)),
        merged(s, o, limit).len() <= limit,
        total(merged(s, o, limit)) == total(s) + total(o),
    decreases o.len(),
{
    if o.len() > 0 {
        lemma_total_first(o);
        lemma_total_nonneg(o.drop_first());
        lemma_added(s, o[0].key, o[0].count, limit);
        lemma_merged(added(s, o[0].key, o[0].count, limit), o.drop_first(), limit);
    }
}

/// One half-line of a sketch: a bounded, ordered set of occupied buckets.
///
/// At most `limit` buckets are held. When a new key would exceed that budget, the bucket of
/// the lowest key is folded into its upper neighbour, so resolution is kept at the high end.
#[derive(Clone, Debug)]
pub struct Store {
    bins: Vec<Bin>,
    count: u64,
    limit: usize,
}

impl View for Store {
    type V = Seq<Bin>;

    closed spec fn view(&self) -> Seq<Bin> {
        self.bins@
    }
}

impl Store {
    /// The bucket budget.
    pub closed spec fn limit(&self) -> nat {
        self.limit as nat
    }

    pub closed spec fn wf(&self) -> bool {
        &&& ordered(self.bins@)
        &&& occupied(self.bins@)
        &&& 1 <= self.limit
        &&& self.bins@.len() <= self.limit
        &&& self.count == total(self.bins@)
    }

    /// What a well-formed store guarantees: ordered, occupied buckets within the budget, and
    /// no bucket at all when it holds no sample.
    pub proof fn lemma_wf(&self)
        requires
            self.wf(),
        ensures
            ordered(self@),
            occupied(self@),
            1 <= self.limit(),
            self@.len() <= self.limit(),
            0 <= total(self@) <= u64::MAX,
            total(self@) == 0 <==> self@.len() == 0,
    {
        lemma_total_nonneg(self.bins@);
        if self.bins@.len() > 0 {
            lemma_total_split(self.bins@, 0);
        }
    }

    /// An empty store with a budget of `limit` buckets.
    pub fn new(limit: usize) -> (r: Store)
        requires
            limit >= 1,
        ensures
            r.wf(),
            r@ == Seq::<Bin>::empty(),
            r.limit() == limit,
    {
        Store { bins: Vec::new(), count: 0, limit }
    }

    /// How many samples the store holds.
    pub fn count(&self) -> (r: u64)
        requires
            self.wf(),
        ensures
            r == total(self@),
    {
        self.count
    }

    /// How many buckets are occupied.
    pub fn length(&self) -> (r: usize)
        ensures
            r == self@.len(),
    {
        self.bins.len()
    }

    /// How many buckets have a key below `key`: where `key` stands or would be inserted.
    fn position(&self, key: i32) -> (r: usize)
        requires
            self.wf(),
        ensures
            r == below(self@, key),
            r <= self@.len(),
            forall|i: int| 0 <= i < r ==> self@[i].key < key,
            forall|i: int| r <= i < self@.len() ==> self@[i].key >= key,
    {
        proof {
            lemma_below(self.bins@, key);
        }
        let mut p: usize = 0;
        let mut hi: usize = self.bins.len();
        while p < hi
            invariant
                p <= hi <= self.bins@.len(),
                forall|i: int| 0 <= i < p ==> self.bins@[i].key < key,
                forall|i: int| hi <= i < self.bins@.len() ==> self.bins@[i].key >= key,
                ordered(self.bins@),
            decreases hi - p,
        {
            let mid = p + (hi - p) / 2;
            if self.bins[mid].key < key {
                p = mid + 1;
            } else {
                hi = mid;
            }
        }
        assert(p == below(self.bins@, key)) by {
            let q = below(self.bins@, key) as int;
            if q < p {
                assert(self.bins@[q].key < key);
            } else if p < q {
                assert(self.bins@[p as int].key < key);
            }
        }
        p
    }

    /// How many samples the bucket of `key` holds.
    pub fn count_at(&self, key: i32) -> (r: u64)
        requires
            self.wf(),
        ensures
            forall|i: int| 0 <= i < self@.len() && self@[i].key == key ==> r == self@[i].count,
            (forall|i: int| 0 <= i < self@.len() ==> self@[i].key != key) ==> r == 0,
    {
        let p = self.position(key);
        if p < self.bins.len() && self.bins[p].key == key {
            self.bins[p].count
        } else {
            0
        }
    }

    /// The lowest occupied key, if any.
    pub fn min_key(&self) -> (r: Option<i32>)
        ensures
            self@.len() == 0 ==> r is None,
            self@.len() > 0 ==> r == Some(self@[0].key),
    {
        if self.bins.len() == 0 {
            None
        } else {
            Some(self.bins[0].key)
        }
    }

    /// The highest occupied key, if any.
    pub fn max_key(&self) -> (r: Option<i32>)
        ensures
            self@.len() == 0 ==> r is None,
            self@.len() > 0 ==> r == Some(self@.last().key),
    {
        if self.bins.len() == 0 {
            None
        } else {
            Some(self.bins[self.bins.len() - 1].key)
        }
    }

    /// Counts `n` samples under `key`.
    pub fn add_count(&mut self, key: i32, n: u64)
        requires
            old(self).wf(),
            n > 0,
            total(old(self)@) + n <= u64::MAX,
        ensures
            final(self).wf(),
            final(self).limit() == old(self).limit(),
            final(self)@ == added(old(self)@, key, n, old(self).limit()),
            total(final(self)@) == total(old(self)@) + n,
    {
        proof {
            lemma_added(self.bins@, key, n, self.limit as nat);
        }
        let p = self.position(key);
        if p < self.bins.len() && self.bins[p].key == key {
            proof {
                lemma_total_split(self.bins@, p as int);
            }
            let c = self.bins[p].count;
            self.bins[p] = Bin { key, count: c + n };
        } else {
            proof {
                lemma_inserted(self.bins@, key, n);
            }
            self.bins.insert(p, Bin { key, count: n });
            if self.bins.len() > self.limit {
                proof {
                    lemma_total_fold(self.bins@);
                }
                let lowest = self.bins.remove(0);
                let next = self.bins[0];
                self.bins[0] = Bin { key: next.key, count: lowest.count + next.count };
                assert(self.bins@ =~= fold_lowest(old(self).bins@.insert(p as int, Bin { key, count: n })));
            }
        }
        self.count = self.count + n;
    }

    /// Counts one sample under `key`.
    pub fn add(&mut self, key: i32)
        requires
            old(self).wf(),
            total(old(self)@) < u64::MAX,
        ensures
            final(self).wf(),
            final(self).limit() == old(self).limit(),
            final(self)@ == added(old(self)@, key, 1, old(self).limit()),
            total(final(self)@) == total(old(self)@) + 1,
    {
        self.add_count(key, 1);
    }

    /// The key of the bucket that holds the sample of rank `rank` (from 0), lowest key first.
    pub fn key_at_rank(&self, rank: u64) -> (r: i32)
        requires
            self.wf(),
            rank < total(self@),
        ensures
            r == key_at(self@, rank as int),
    {
        let mut i: usize = 0;
        let mut acc: u64 = 0;
        let ghost s = self.bins@;
        assert(s.subrange(0, s.len() as int) =~= s);
        loop
            invariant
                self.wf(),
                s == self.bins@,
                i < s.len(),
                acc <= rank,
                total(s.subrange(i as int, s.len() as int)) > rank - acc,
                key_at(s, rank as int) == key_at(s.subrange(i as int, s.len() as int), rank - acc),
            decreases s.len() - i,
        {
            let ghost rest = s.subrange(i as int, s.len() as int);
            proof {
                lemma_total_first(rest);
                lemma_total_nonneg(rest.drop_first());
                assert(rest.drop_first() =~= s.subrange(i + 1, s.len() as int));
            }
            let c = self.bins[i].count;
            if rank - acc < c {
                return self.bins[i].key;
            }
            acc = acc + c;
            i = i + 1;
            proof {
                if i == s.len() {
                    assert(s.subrange(i as int, s.len() as int) =~= Seq::<Bin>::empty());
                }
            }
        }
    }

    /// Counts every sample of `other` into this store, under this store's budget.
    pub fn merge(&mut self, other: &Store)
        requires
            old(self).wf(),
            other.wf(),
            total(old(self)@) + total(other@) <= u64::MAX,
        ensures
            final(self).wf(),
            final(self).limit() == old(self).limit(),
            final(self)@ == merged(old(self)@, other@, old(self).limit()),
            total(final(self)@) == total(old(self)@) + total(other@),
    {
        let mut i: usize = 0;
        proof {
            lemma_merged(self.bins@, other.bins@, self.limit as nat);
            assert(other.bins@.subrange(0, other.bins@.len() as int) =~= other.bins@);
        }
        while i < other.bins.len()
            invariant
                self.wf(),
                other.wf(),
                i <= other.bins@.len(),
                self.limit == old(self).limit,
                total(old(self)@) + total(other@) <= u64::MAX,
                merged(self@, other@.subrange(i as int, other@.len() as int), self.limit as nat)
                    == merged(old(self)@, other@, self.limit as nat),
                total(self@) + total(other@.subrange(i as int, other@.len() as int)) == total(
                    old(self)@,
                ) + total(other@),
            decreases other.bins@.len() - i,
        {
            let b = other.bins[i];
            let ghost rest = other@.subrange(i as int, other@.len() as int);
            proof {
                lemma_total_first(rest);
                lemma_total_nonneg(rest.drop_first());
                assert(rest.drop_first() =~= other@.subrange(i + 1, other@.len() as int));
                assert(rest[0] == b);
            }
            self.add_count(b.key, b.count);
            i = i + 1;
        }
        assert(other@.subrange(i as int, other@.len() as int) =~= Seq::<Bin>::empty());
    }
}

} // verus!
