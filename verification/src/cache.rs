use vstd::prelude::*;

verus! {

/// Memo table for kernel evaluations between pairs of samples, keyed by the
/// two samples' global dataset indices.
///
/// Keys are stored exactly as the caller builds them; the cache does not
/// canonicalize pair order. Entries are added lazily on first
/// lookup-or-compute and removed in bulk when indices leave the active set.
pub struct Cache<V> {
    entries: Vec<((usize, usize), V)>,
}

/// The map described by an association sequence: later entries win.
pub open spec fn map_of<V>(s: Seq<((usize, usize), V)>) -> Map<(usize, usize), V>
    decreases s.len(),
{
    if s.len() == 0 {
        Map::empty()
    } else {
        map_of(s.drop_last()).insert(s.last().0, s.last().1)
    }
}

impl<V> View for Cache<V> {
    type V = Map<(usize, usize), V>;

    closed spec fn view(&self) -> Map<(usize, usize), V> {
        map_of(self.entries@)
    }
}

/// A key appears in the map exactly when some entry carries it.
pub proof fn lemma_map_of_contains<V>(s: Seq<((usize, usize), V)>, k: (usize, usize))
    ensures
        map_of(s).contains_key(k) <==> exists|i: int| 0 <= i < s.len() && s[i].0 == k,
    decreases s.len(),
{
    if s.len() > 0 {
        lemma_map_of_contains(s.drop_last(), k);
        if s.last().0 == k {
            assert(s[s.len() - 1].0 == k);
        } else if map_of(s).contains_key(k) {
            let i = choose|i: int| 0 <= i < s.drop_last().len() && s.drop_last()[i].0 == k;
            assert(s[i].0 == k);
        } else if exists|i: int| 0 <= i < s.len() && s[i].0 == k {
            let i = choose|i: int| 0 <= i < s.len() && s[i].0 == k;
            assert(s.drop_last()[i].0 == k);
        }
    }
}

/// With distinct keys, each entry gives the map's value at its key.
pub proof fn lemma_map_of_index<V>(s: Seq<((usize, usize), V)>, m: int)
    requires
        forall|p: int, q: int| 0 <= p < q < s.len() ==> s[p].0 != s[q].0,
        0 <= m < s.len(),
    ensures
        map_of(s).contains_key(s[m].0),
        map_of(s)[s[m].0] == s[m].1,
    decreases s.len(),
{
    if m == s.len() - 1 {
    } else {
        assert(forall|p: int, q: int|
            0 <= p < q < s.drop_last().len() ==> s.drop_last()[p].0 != s.drop_last()[q].0);
        lemma_map_of_index(s.drop_last(), m);
        assert(s[m].0 != s.last().0);
    }
}

impl<V: Copy> Cache<V> {
    /// No two entries carry the same key.
    pub closed spec fn wf(self) -> bool {
        forall|p: int, q: int|
            0 <= p < q < self.entries@.len() ==> self.entries@[p].0 != self.entries@[q].0
    }

    pub fn new() -> (r: Self)
        ensures
            r.wf(),
            r@ == Map::<(usize, usize), V>::empty(),
    {
        Cache { entries: Vec::new() }
    }

    /// The position of the entry holding `key`, if any.
    fn find(&self, key: (usize, usize)) -> (r: Option<usize>)
        ensures
            match r {
                Some(m) => m < self.entries@.len() && self.entries@[m as int].0 == key,
                None => forall|i: int| 0 <= i < self.entries@.len() ==> self.entries@[i].0 != key,
            },
    {
        let mut m: usize = 0;
        while m < self.entries.len()
            invariant
                m <= self.entries@.len(),
                forall|i: int| 0 <= i < m ==> self.entries@[i].0 != key,
            decreases self.entries@.len() - m,
        {
            let (k, _) = self.entries[m];
            if k.0 == key.0 && k.1 == key.1 {
                return Some(m);
            }
            m += 1;
        }
        None
    }

    pub fn get(&self, i: usize, j: usize) -> (r: Option<&V>)
        requires
            self.wf(),
        ensures
            match r {
                Some(v) => self@.contains_key((i, j)) && *v == self@[(i, j)],
                None => !self@.contains_key((i, j)),
            },
    {
        proof {
            lemma_map_of_contains(self.entries@, (i, j));
        }
        match self.find((i, j)) {
            Some(m) => {
                proof {
                    lemma_map_of_index(self.entries@, m as int);
                }
                Some(&self.entries[m].1)
            }
            None => None,
        }
    }

    pub fn insert(&mut self, key: (usize, usize), value: V)
        requires
            old(self).wf(),
        ensures
            final(self).wf(),
            final(self)@ == old(self)@.insert(key, value),
    {
        proof {
            lemma_map_of_contains(self.entries@, key);
        }
        let ghost pre = self.entries@;
        match self.find(key) {
            Some(m) => {
                // Replace in place, then argue the two maps agree on every key.
                self.entries[m].1 = value;
                proof {
                    let cur = self.entries@;
                    assert(cur =~= pre.update(m as int, (key, value)));
                    assert(forall|i: int| 0 <= i < cur.len() ==> cur[i].0 == pre[i].0);
                    assert(forall|p: int, q: int|
                        0 <= p < q < cur.len() ==> cur[p].0 != cur[q].0);
                    assert forall|k: (usize, usize)|
                        map_of(cur).contains_key(k) == map_of(pre).insert(
                            key,
                            value,
                        ).contains_key(k) by {
                        lemma_map_of_contains(pre, k);
                        lemma_map_of_contains(cur, k);
                    }
                    assert forall|k: (usize, usize)| #[trigger]
                        map_of(cur).contains_key(k) implies map_of(cur)[k] == map_of(pre).insert(
                        key,
                        value,
                    )[k] by {
                        lemma_map_of_contains(cur, k);
                        let i = choose|i: int| 0 <= i < cur.len() && cur[i].0 == k;
                        lemma_map_of_index(cur, i);
                        if k != key {
                            lemma_map_of_index(pre, i);
                        }
                    }
                    assert(map_of(cur) =~= map_of(pre).insert(key, value));
                }
            }
            None => {
                self.entries.push((key, value));
                proof {
                    assert(self.entries@.drop_last() =~= pre);
                }
            }
        }
    }

    pub fn clear(&mut self)
        ensures
            final(self).wf(),
            final(self)@ == Map::<(usize, usize), V>::empty(),
    {
        self.entries.clear();
    }

    /// Return the value cached under `key`; if there is none, run `compute`,
    /// cache its result, and return it. `compute` is not run on a hit.
    pub fn get_or_insert<F: FnOnce() -> V>(&mut self, key: (usize, usize), compute: F) -> (r: V)
        requires
            old(self).wf(),
            compute.requires(()),
        ensures
            final(self).wf(),
            old(self)@.contains_key(key) ==> r == old(self)@[key] && final(self)@ == old(self)@,
            !old(self)@.contains_key(key) ==> compute.ensures((), r) && final(self)@ == old(
                self,
            )@.insert(key, r),
    {
        proof {
            lemma_map_of_contains(self.entries@, key);
        }
        match self.find(key) {
            Some(m) => {
                proof {
                    lemma_map_of_index(self.entries@, m as int);
                }
                self.entries[m].1
            }
            None => {
                let value = compute();
                self.entries.push((key, value));
                proof {
                    assert(self.entries@.drop_last() =~= old(self).entries@);
                }
                value
            }
        }
    }

    /// Remove every entry whose key mentions any index in `indices`. Called
    /// once per shrink pass with the indices that just left the active set.
    pub fn drop_all(&mut self, indices: &Vec<usize>)
        requires
            old(self).wf(),
        ensures
            final(self).wf(),
            forall|k: (usize, usize)| #[trigger]
                final(self)@.contains_key(k) <==> old(self)@.contains_key(k)
                    && !indices@.contains(k.0) && !indices@.contains(k.1),
            forall|k: (usize, usize)| #[trigger]
                final(self)@.contains_key(k) ==> final(self)@[k] == old(self)@[k],
    {
        let ghost pre = self.entries@;
        let mut kept: Vec<((usize, usize), V)> = Vec::new();
        let mut m: usize = 0;
        while m < self.entries.len()
            invariant
                self.entries@ == pre,
                forall|p: int, q: int| 0 <= p < q < pre.len() ==> pre[p].0 != pre[q].0,
                m <= pre.len(),
                forall|p: int, q: int|
                    0 <= p < q < kept@.len() ==> kept@[p].0 != kept@[q].0,
                forall|j: int| #![trigger kept@[j]]
                    0 <= j < kept@.len() ==> exists|i: int| 0 <= i < m && pre[i] == kept@[j],
                forall|i: int| #![trigger pre[i]]
                    0 <= i < m ==> (kept@.contains(pre[i]) <==> !indices@.contains(pre[i].0.0)
                        && !indices@.contains(pre[i].0.1)),
            decreases pre.len() - m,
        {
            let (k, v) = self.entries[m];
            let ghost kt = kept@;
            let keep = !contains_index(indices, k.0) && !contains_index(indices, k.1);
            if keep {
                kept.push((k, v));
            }
            proof {
                let e = pre[m as int];
                assert(e == ((k, v)));
                if keep {
                    assert(kept@ == kt.push(e));
                } else {
                    assert(kept@ == kt);
                }
                assert forall|p: int, q: int|
                    0 <= p < q < kept@.len() implies kept@[p].0 != kept@[q].0 by {
                    if keep && q == kept@.len() - 1 {
                        assert(kept@[p] == kt[p]);
                        let i = choose|i: int| 0 <= i < m && pre[i] == kt[p];
                        assert(pre[i].0 != e.0);
                    } else {
                        assert(kept@[p] == kt[p] && kept@[q] == kt[q]);
                    }
                }
                assert forall|j: int| #![trigger kept@[j]] 0 <= j < kept@.len() implies exists|
                    i: int,
                | 0 <= i < m + 1 && pre[i] == kept@[j] by {
                    if keep && j == kept@.len() - 1 {
                        assert(pre[m as int] == kept@[j]);
                    } else {
                        assert(kept@[j] == kt[j]);
                        let i = choose|i: int| 0 <= i < m && pre[i] == kt[j];
                        assert(0 <= i < m + 1 && pre[i] == kept@[j]);
                    }
                }
                assert forall|i: int| 0 <= i < m + 1 implies (#[trigger] kept@.contains(pre[i])
                    <==> !indices@.contains(pre[i].0.0) && !indices@.contains(pre[i].0.1)) by {
                    if i < m {
                        if kt.contains(pre[i]) {
                            let j = choose|j: int| 0 <= j < kt.len() && kt[j] == pre[i];
                            assert(kept@[j] == pre[i]);
                            assert(kept@.contains(pre[i]));
                        }
                        if kept@.contains(pre[i]) {
                            let j = choose|j: int|
                                0 <= j < kept@.len() && kept@[j] == pre[i];
                            if keep && j == kept@.len() - 1 {
                                assert(pre[i].0 == e.0);
                                assert(false);
                            } else {
                                assert(kt[j] == pre[i]);
                                assert(kt.contains(pre[i]));
                            }
                        }
                        assert(kt.contains(pre[i]) <==> !indices@.contains(pre[i].0.0)
                            && !indices@.contains(pre[i].0.1));
                    } else {
                        if keep {
                            assert(kept@[kept@.len() - 1] == e);
                            assert(kept@.contains(e));
                        } else {
                            if kept@.contains(e) {
                                let j = choose|j: int|
                                    0 <= j < kept@.len() && kept@[j] == e;
                                let i2 = choose|i2: int| 0 <= i2 < m && pre[i2] == kt[j];
                                assert(pre[i2].0 != e.0);
                                assert(false);
                            }
                        }
                    }
                }
            }
            m += 1;
        }
        self.entries = kept;
        proof {
            assert forall|k: (usize, usize)|
                final(self)@.contains_key(k) <==> (old(self)@.contains_key(k)
                    && !indices@.contains(k.0) && !indices@.contains(k.1)) by {
                lemma_map_of_contains(pre, k);
                lemma_map_of_contains(self.entries@, k);
                if exists|j: int| 0 <= j < self.entries@.len() && self.entries@[j].0 == k {
                    let j = choose|j: int|
                        0 <= j < self.entries@.len() && self.entries@[j].0 == k;
                    assert(exists|i: int| 0 <= i < pre.len() && pre[i] == self.entries@[j]);
                }
                if old(self)@.contains_key(k) && !indices@.contains(k.0) && !indices@.contains(
                    k.1,
                ) {
                    let i = choose|i: int| 0 <= i < pre.len() && pre[i].0 == k;
                    assert(self.entries@.contains(pre[i]));
                }
            }
            assert forall|k: (usize, usize)| #[trigger]
                final(self)@.contains_key(k) implies final(self)@[k] == old(self)@[k] by {
                lemma_map_of_contains(self.entries@, k);
                let j = choose|j: int| 0 <= j < self.entries@.len() && self.entries@[j].0 == k;
                lemma_map_of_index(self.entries@, j);
                let i = choose|i: int| 0 <= i < pre.len() && pre[i] == self.entries@[j];
                lemma_map_of_index(pre, i);
            }
        }
    }

    /// The keys currently cached, in storage order.
    pub fn keys(&self) -> (r: Vec<(usize, usize)>)
        ensures
            forall|k: (usize, usize)| #[trigger] self@.contains_key(k) <==> r@.contains(k),
    {
        let mut r: Vec<(usize, usize)> = Vec::new();
        let mut m: usize = 0;
        while m < self.entries.len()
            invariant
                m <= self.entries@.len(),
                r@.len() == m,
                forall|i: int| 0 <= i < m ==> r@[i] == self.entries@[i].0,
            decreases self.entries@.len() - m,
        {
            let (k, _) = self.entries[m];
            r.push(k);
            m += 1;
        }
        proof {
            assert forall|k: (usize, usize)|
                self@.contains_key(k) <==> r@.contains(k) by {
                lemma_map_of_contains(self.entries@, k);
                if exists|i: int| 0 <= i < self.entries@.len() && self.entries@[i].0 == k {
                    let i = choose|i: int|
                        0 <= i < self.entries@.len() && self.entries@[i].0 == k;
                    assert(r@[i] == k);
                }
                if r@.contains(k) {
                    let i = choose|i: int| 0 <= i < r@.len() && r@[i] == k;
                    assert(self.entries@[i].0 == k);
                }
            }
        }
        r
    }
}

/// Whether `x` occurs in `v`.
pub fn contains_index(v: &Vec<usize>, x: usize) -> (r: bool)
    ensures
        r == v@.contains(x),
{
    let mut m: usize = 0;
    while m < v.len()
        invariant
            m <= v@.len(),
            forall|i: int| 0 <= i < m ==> v@[i] != x,
        decreases v@.len() - m,
    {
        if v[m] == x {
            return true;
        }
        m += 1;
    }
    false
}

/// What a lookup-or-compute returns on map `m`: the cached value if the key
/// is present, the freshly computed `fallback` otherwise.
pub open spec fn lookup_or<V>(m: Map<(usize, usize), V>, key: (usize, usize), fallback: V) -> V {
    if m.contains_key(key) {
        m[key]
    } else {
        fallback
    }
}

/// Law: when every cached value agrees with a single value function `f` and
/// `f` is symmetric in the pair `(i, j)`, a lookup-or-compute returns the same
/// value whether it is asked for `(i, j)` or `(j, i)` - cache consistency does
/// not depend on the order the caller builds the key in.
pub proof fn lemma_lookup_order_insensitive<V>(
    m: Map<(usize, usize), V>,
    f: spec_fn((usize, usize)) -> V,
    i: usize,
    j: usize,
)
    requires
        forall|k: (usize, usize)| #[trigger] m.contains_key(k) ==> m[k] == f(k),
        f((i, j)) == f((j, i)),
    ensures
        lookup_or(m, (i, j), f((i, j))) == lookup_or(m, (j, i), f((j, i))),
{
}

} // verus!
