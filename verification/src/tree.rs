use vstd::prelude::*;
use crate::byte_order::{bytes_lt, bytes_less, lemma_bytes_lt_irreflexive, lemma_bytes_lt_total, lemma_bytes_lt_transitive};

verus! {

/// The map that results from writing `pairs`, in order, over `base`: a later
/// write of a key replaces an earlier one.
pub open spec fn apply_pairs(
    base: Map<Seq<u8>, Seq<u8>>,
    pairs: Seq<(Seq<u8>, Seq<u8>)>,
) -> Map<Seq<u8>, Seq<u8>>
    decreases pairs.len(),
{
    if pairs.len() == 0 {
        base
    } else {
        apply_pairs(base, pairs.drop_last()).insert(pairs.last().0, pairs.last().1)
    }
}

/// `pairs` lists the contents of `m` once each, in ascending key order.
pub open spec fn lists_in_order(pairs: Seq<(Seq<u8>, Seq<u8>)>, m: Map<Seq<u8>, Seq<u8>>) -> bool {
    &&& forall|i: int, j: int| 0 <= i < j < pairs.len() ==> bytes_lt(#[trigger] pairs[i].0, #[trigger] pairs[j].0)
    &&& forall|i: int| 0 <= i < pairs.len() ==> m.contains_key(#[trigger] pairs[i].0) && m[pairs[i].0] == pairs[i].1
    &&& forall|k: Seq<u8>| #[trigger] m.contains_key(k) ==> exists|i: int| 0 <= i < pairs.len() && pairs[i].0 == k
    &&& m.dom().finite()
    &&& m.dom().len() == pairs.len()
}

/// Writing `pairs` over `base` is writing over `base` the map that the same
/// writes give on their own.
pub proof fn lemma_apply_pairs_over(base: Map<Seq<u8>, Seq<u8>>, pairs: Seq<(Seq<u8>, Seq<u8>)>)
    ensures
        apply_pairs(base, pairs) == base.union_prefer_right(apply_pairs(Map::empty(), pairs)),
    decreases pairs.len(),
{
    if pairs.len() == 0 {
        assert(base.union_prefer_right(Map::empty()) =~= base);
    } else {
        lemma_apply_pairs_over(base, pairs.drop_last());
        assert(apply_pairs(base, pairs) =~= base.union_prefer_right(apply_pairs(Map::empty(), pairs)));
    }
}

/// After writing `pairs` over `base`, the keys are those of `base` and of the
/// pairs; a key that some pair holds maps to the value of the last pair with
/// that key; every other key keeps its value from `base`.
pub proof fn lemma_apply_pairs_last_write_wins(base: Map<Seq<u8>, Seq<u8>>, pairs: Seq<(Seq<u8>, Seq<u8>)>)
    ensures
        forall|k: Seq<u8>| #[trigger] apply_pairs(base, pairs).contains_key(k) <==> (base.contains_key(k)
            || exists|i: int| 0 <= i < pairs.len() && pairs[i].0 == k),
        forall|i: int|
            0 <= i < pairs.len() && (forall|j: int| i < j < pairs.len() ==> pairs[j].0 != pairs[i].0)
                ==> #[trigger] apply_pairs(base, pairs)[pairs[i].0] == pairs[i].1,
        forall|k: Seq<u8>|
            base.contains_key(k) && !(exists|i: int| 0 <= i < pairs.len() && pairs[i].0 == k)
                ==> #[trigger] apply_pairs(base, pairs)[k] == base[k],
    decreases pairs.len(),
{
    if pairs.len() > 0 {
        let init = pairs.drop_last();
        let n = pairs.len() - 1;
        lemma_apply_pairs_last_write_wins(base, init);
        let prev = apply_pairs(base, init);
        let cur = apply_pairs(base, pairs);
        assert(cur == prev.insert(pairs[n].0, pairs[n].1));
        assert forall|k: Seq<u8>| #[trigger] cur.contains_key(k) <==> (base.contains_key(k)
            || exists|i: int| 0 <= i < pairs.len() && pairs[i].0 == k) by {
            if exists|i: int| 0 <= i < pairs.len() && pairs[i].0 == k {
                let i = choose|i: int| 0 <= i < pairs.len() && pairs[i].0 == k;
                if i < n {
                    assert(init[i].0 == k);
                }
            }
            if prev.contains_key(k) && !base.contains_key(k) {
                let i = choose|i: int| 0 <= i < init.len() && init[i].0 == k;
                assert(pairs[i].0 == k);
            }
        }
        assert forall|i: int|
            0 <= i < pairs.len() && (forall|j: int| i < j < pairs.len() ==> pairs[j].0 != pairs[i].0)
                implies #[trigger] cur[pairs[i].0] == pairs[i].1 by {
            if i < n {
                assert(pairs[n].0 != pairs[i].0);
                assert(init[i] == pairs[i]);
                assert forall|j: int| i < j < init.len() implies init[j].0 != init[i].0 by {
                    assert(init[j] == pairs[j]);
                }
            }
        }
        assert forall|k: Seq<u8>|
            base.contains_key(k) && !(exists|i: int| 0 <= i < pairs.len() && pairs[i].0 == k)
                implies #[trigger] cur[k] == base[k] by {
            assert(pairs[n].0 != k);
            if exists|i: int| 0 <= i < init.len() && init[i].0 == k {
                let i = choose|i: int| 0 <= i < init.len() && init[i].0 == k;
                assert(pairs[i].0 == k);
            }
        }
    }
}

/// Writing `pairs` in sequence equals writing a prefix, then the rest.
pub proof fn lemma_apply_pairs_split(base: Map<Seq<u8>, Seq<u8>>, pairs: Seq<(Seq<u8>, Seq<u8>)>, n: int)
    requires
        0 <= n <= pairs.len(),
    ensures
        apply_pairs(base, pairs) == apply_pairs(apply_pairs(base, pairs.take(n)), pairs.skip(n)),
    decreases pairs.len(),
{
    if pairs.len() == n {
        assert(pairs.take(n) =~= pairs);
        assert(pairs.skip(n).len() == 0);
    } else {
        lemma_apply_pairs_split(base, pairs.drop_last(), n);
        assert(pairs.drop_last().take(n) =~= pairs.take(n));
        assert(pairs.skip(n).drop_last() =~= pairs.drop_last().skip(n));
        assert(pairs.skip(n).last() == pairs.last());
    }
}

/// Writing, in order, pairs that list a map gives back that map.
pub proof fn lemma_apply_listing(pairs: Seq<(Seq<u8>, Seq<u8>)>, m: Map<Seq<u8>, Seq<u8>>)
    requires
        lists_in_order(pairs, m),
    ensures
        apply_pairs(Map::empty(), pairs) == m,
{
    lemma_apply_distinct_prefix(pairs, pairs.len() as int);
    assert(pairs.take(pairs.len() as int) =~= pairs);
    let a = apply_pairs(Map::empty(), pairs);
    assert forall|k: Seq<u8>| #[trigger] a.contains_key(k) <==> m.contains_key(k) by {
        if m.contains_key(k) {
            let i = choose|i: int| 0 <= i < pairs.len() && pairs[i].0 == k;
            assert(pairs.take(pairs.len() as int)[i] == pairs[i]);
        }
    }
    assert forall|k: Seq<u8>| #[trigger] a.contains_key(k) implies a[k] == m[k] by {
        let i = choose|i: int| 0 <= i < pairs.len() && pairs[i].0 == k;
        assert(pairs.take(pairs.len() as int)[i] == pairs[i]);
    }
    assert(a =~= m);
}

proof fn lemma_apply_distinct_prefix(pairs: Seq<(Seq<u8>, Seq<u8>)>, n: int)
    requires
        0 <= n <= pairs.len(),
        forall|i: int, j: int| 0 <= i < j < pairs.len() ==> bytes_lt(#[trigger] pairs[i].0, #[trigger] pairs[j].0),
    ensures
        forall|k: Seq<u8>| #[trigger] apply_pairs(Map::empty(), pairs.take(n)).contains_key(k)
            <==> exists|i: int| 0 <= i < n && pairs[i].0 == k,
        forall|i: int| 0 <= i < n ==> #[trigger] apply_pairs(Map::empty(), pairs.take(n))[pairs[i].0] == pairs[i].1,
    decreases n,
{
    let p = pairs.take(n);
    if n == 0 {
        assert(p.len() == 0);
    } else {
        lemma_apply_distinct_prefix(pairs, n - 1);
        assert(p.drop_last() =~= pairs.take(n - 1));
        let prev = apply_pairs(Map::empty(), pairs.take(n - 1));
        assert(p.last() == pairs[n - 1]);
        assert forall|k: Seq<u8>| #[trigger] apply_pairs(Map::empty(), p).contains_key(k)
            <==> exists|i: int| 0 <= i < n && pairs[i].0 == k by {
            if prev.contains_key(k) {
                let i = choose|i: int| 0 <= i < n - 1 && pairs[i].0 == k;
                assert(0 <= i < n && pairs[i].0 == k);
            }
            if exists|i: int| 0 <= i < n && pairs[i].0 == k {
                let i = choose|i: int| 0 <= i < n && pairs[i].0 == k;
                if i < n - 1 {
                    assert(prev.contains_key(k));
                }
            }
        }
        assert forall|i: int| 0 <= i < n implies #[trigger] apply_pairs(Map::empty(), p)[pairs[i].0] == pairs[i].1 by {
            if i < n - 1 {
                assert(bytes_lt(pairs[i].0, pairs[n - 1].0));
                lemma_bytes_lt_irreflexive(pairs[i].0);
            }
        }
    }
}

/// Writes gathered to be applied to a tree together; a later write of a key
/// replaces an earlier one.
pub struct Batch {
    writes: Vec<(Vec<u8>, Vec<u8>)>,
}

impl View for Batch {
    type V = Map<Seq<u8>, Seq<u8>>;

    open spec fn view(&self) -> Map<Seq<u8>, Seq<u8>> {
        apply_pairs(Map::empty(), self.writes())
    }
}

impl Batch {
    /// The writes in the order in which they were made.
    pub closed spec fn writes(&self) -> Seq<(Seq<u8>, Seq<u8>)> {
        self.writes@.map_values(|e: (Vec<u8>, Vec<u8>)| (e.0@, e.1@))
    }

    /// A batch with no write.
    pub fn new() -> (b: Self)
        ensures
            b.writes() == Seq::<(Seq<u8>, Seq<u8>)>::empty(),
            b@ == Map::<Seq<u8>, Seq<u8>>::empty(),
    {
        let b = Batch { writes: Vec::new() };
        assert(b.writes() =~= Seq::empty());
        b
    }

    /// Records a write of `value` under `key`.
    pub fn insert(&mut self, key: Vec<u8>, value: Vec<u8>)
        ensures
            final(self).writes() == old(self).writes().push((key@, value@)),
            final(self)@ == old(self)@.insert(key@, value@),
    {
        let ghost k = key@;
        let ghost v = value@;
        self.writes.push((key, value));
        assert(self.writes() =~= old(self).writes().push((k, v)));
        assert(self.writes().drop_last() =~= old(self).writes());
    }

    /// Whether no write has been recorded.
    pub fn is_empty(&self) -> (b: bool)
        ensures
            b == (self.writes().len() == 0),
    {
        self.writes.len() == 0
    }
}

impl Default for Batch {
    /// A batch with no write.
    fn default() -> (b: Self)
        ensures
            b.writes() == Seq::<(Seq<u8>, Seq<u8>)>::empty(),
            b@ == Map::<Seq<u8>, Seq<u8>>::empty(),
    {
        Batch::new()
    }
}

/// An ordered map from byte-string keys to byte-string values.
pub struct Tree {
    entries: Vec<(Vec<u8>, Vec<u8>)>,
    contents: Ghost<Map<Seq<u8>, Seq<u8>>>,
}

impl View for Tree {
    type V = Map<Seq<u8>, Seq<u8>>;

    closed spec fn view(&self) -> Map<Seq<u8>, Seq<u8>> {
        self.contents@
    }
}

impl Tree {
    /// The entries in iteration order: each key with its value, keys ascending.
    pub closed spec fn entries(&self) -> Seq<(Seq<u8>, Seq<u8>)> {
        self.entries@.map_values(|e: (Vec<u8>, Vec<u8>)| (e.0@, e.1@))
    }

    /// The tree is well formed: its entries list its contents in ascending key order.
    pub open spec fn wf(&self) -> bool {
        lists_in_order(self.entries(), self@)
    }

    /// An empty tree.
    pub fn new() -> (t: Self)
        ensures
            t.wf(),
            t@ == Map::<Seq<u8>, Seq<u8>>::empty(),
    {
        let t = Tree { entries: Vec::new(), contents: Ghost(Map::empty()) };
        assert(t.entries() =~= Seq::empty());
        t
    }

    /// The number of entries.
    pub fn len(&self) -> (n: usize)
        requires
            self.wf(),
        ensures
            n == self@.dom().len(),
            n == self.entries().len(),
    {
        self.entries.len()
    }

    /// The key and value of the entry at position `i` of the iteration order.
    pub fn entry(&self, i: usize) -> (kv: (&Vec<u8>, &Vec<u8>))
        requires
            i < self.entries().len(),
        ensures
            kv.0@ == self.entries()[i as int].0,
            kv.1@ == self.entries()[i as int].1,
    {
        (&self.entries[i].0, &self.entries[i].1)
    }

    /// The position at which `key` is or would be: the number of keys before it.
    fn position(&self, key: &[u8]) -> (p: usize)
        requires
            self.wf(),
        ensures
            p <= self.entries().len(),
            forall|i: int| 0 <= i < p ==> bytes_lt(#[trigger] self.entries()[i].0, key@),
            p < self.entries().len() ==> !bytes_lt(self.entries()[p as int].0, key@),
    {
        let mut p: usize = 0;
        while p < self.entries.len()
            invariant
                p <= self.entries@.len(),
                self.entries().len() == self.entries@.len(),
                forall|i: int| 0 <= i < p ==> bytes_lt(#[trigger] self.entries()[i].0, key@),
            decreases self.entries@.len() - p,
        {
            if !bytes_less(self.entries[p].0.as_slice(), key) {
                return p;
            }
            p = p + 1;
        }
        p
    }

    /// The value stored under `key`, if any.
    pub fn get(&self, key: &[u8]) -> (v: Option<Vec<u8>>)
        requires
            self.wf(),
        ensures
            match v {
                Some(v) => self@.contains_key(key@) && v@ == self@[key@],
                None => !self@.contains_key(key@),
            },
    {
        let p = self.position(key);
        proof { self.lemma_position_decides(key@, p as int); }
        if p < self.entries.len() && !bytes_less(key, self.entries[p].0.as_slice()) {
            proof { lemma_bytes_lt_total(key@, self.entries()[p as int].0); }
            Some(vstd::slice::slice_to_vec(self.entries[p].1.as_slice()))
        } else {
            None
        }
    }

    /// Stores `value` under `key`, replacing and returning the value stored there before.
    pub fn insert(&mut self, key: Vec<u8>, value: Vec<u8>) -> (previous: Option<Vec<u8>>)
        requires
            old(self).wf(),
        ensures
            final(self).wf(),
            final(self)@ == old(self)@.insert(key@, value@),
            match previous {
                Some(v) => old(self)@.contains_key(key@) && v@ == old(self)@[key@],
                None => !old(self)@.contains_key(key@),
            },
    {
        let ghost k = key@;
        let ghost v = value@;
        let ghost es = self.entries();
        let ghost m = self@;
        let p = self.position(key.as_slice());
        proof { self.lemma_position_decides(k, p as int); }
        if p < self.entries.len() && !bytes_less(key.as_slice(), self.entries[p].0.as_slice()) {
            proof { lemma_bytes_lt_total(k, es[p as int].0); }
            let (_, previous) = self.entries.remove(p);
            self.entries.insert(p, (key, value));
            self.contents = Ghost(m.insert(k, v));
            proof {
                let es2 = self.entries();
                assert(es2 =~= es.update(p as int, (k, v)));
                assert forall|i: int, j: int| 0 <= i < j < es2.len() implies bytes_lt(#[trigger] es2[i].0, #[trigger] es2[j].0) by {
                    assert(bytes_lt(es[i].0, es[j].0));
                }
                assert forall|i: int| 0 <= i < es2.len() implies self@.contains_key(#[trigger] es2[i].0) && self@[es2[i].0] == es2[i].1 by {
                    if i != p {
                        if i < p {
                            assert(bytes_lt(es[i].0, es[p as int].0));
                        } else {
                            assert(bytes_lt(es[p as int].0, es[i].0));
                        }
                        lemma_bytes_lt_irreflexive(k);
                    }
                }
                assert forall|kk: Seq<u8>| #[trigger] self@.contains_key(kk) implies exists|i: int| 0 <= i < es2.len() && es2[i].0 == kk by {
                    if kk != k {
                        let i = choose|i: int| 0 <= i < es.len() && es[i].0 == kk;
                        assert(es2[i].0 == kk);
                    } else {
                        assert(es2[p as int].0 == kk);
                    }
                }
                assert(self@.dom() =~= m.dom());
            }
            Some(previous)
        } else {
            self.entries.insert(p, (key, value));
            self.contents = Ghost(m.insert(k, v));
            proof {
                let es2 = self.entries();
                assert(es2 =~= es.insert(p as int, (k, v)));
                assert forall|i: int, j: int| 0 <= i < j < es2.len() implies bytes_lt(#[trigger] es2[i].0, #[trigger] es2[j].0) by {
                    if j < p {
                        assert(bytes_lt(es[i].0, es[j].0));
                    } else if j == p {
                    } else if i < p {
                        assert(bytes_lt(es[i].0, es[j - 1].0));
                    } else if i == p {
                    } else {
                        assert(bytes_lt(es[i - 1].0, es[j - 1].0));
                    }
                }
                assert(!m.contains_key(k));
                assert forall|i: int| 0 <= i < es2.len() implies self@.contains_key(#[trigger] es2[i].0) && self@[es2[i].0] == es2[i].1 by {
                    if i < p {
                        assert(es2[i] == es[i]);
                        assert(m.contains_key(es[i].0));
                    } else if i > p {
                        assert(es2[i] == es[i - 1]);
                        assert(m.contains_key(es[i - 1].0));
                    }
                }
                assert forall|kk: Seq<u8>| #[trigger] self@.contains_key(kk) implies exists|i: int| 0 <= i < es2.len() && es2[i].0 == kk by {
                    if kk != k {
                        let i = choose|i: int| 0 <= i < es.len() && es[i].0 == kk;
                        if i < p {
                            assert(es2[i].0 == kk);
                        } else {
                            assert(es2[i + 1].0 == kk);
                        }
                    } else {
                        assert(es2[p as int].0 == kk);
                    }
                }
                assert(self@.dom() =~= m.dom().insert(k));
            }
            None
        }
    }

    /// Writes every entry of `batch` into the tree; a key that the batch holds
    /// gets the batch's value, other keys keep theirs.
    pub fn apply_batch(&mut self, batch: Batch)
        requires
            old(self).wf(),
        ensures
            final(self).wf(),
            final(self)@ == old(self)@.union_prefer_right(batch@),
    {
        let ghost base = self@;
        let ghost ws = batch.writes();
        let n = batch.writes.len();
        let mut i: usize = 0;
        assert(ws.take(0) =~= Seq::<(Seq<u8>, Seq<u8>)>::empty());
        while i < n
            invariant
                i <= n,
                n == ws.len(),
                ws == batch.writes(),
                self.wf(),
                self@ == apply_pairs(base, ws.take(i as int)),
            decreases n - i,
        {
            let key = vstd::slice::slice_to_vec(batch.writes[i].0.as_slice());
            let value = vstd::slice::slice_to_vec(batch.writes[i].1.as_slice());
            self.insert(key, value);
            proof {
                assert(ws.take(i + 1).drop_last() =~= ws.take(i as int));
                assert(ws.take(i + 1).last() == ws[i as int]);
            }
            i = i + 1;
        }
        proof {
            assert(ws.take(n as int) =~= ws);
            lemma_apply_pairs_over(base, ws);
        }
    }

    proof fn lemma_position_decides(&self, key: Seq<u8>, p: int)
        requires
            self.wf(),
            0 <= p <= self.entries().len(),
            forall|i: int| 0 <= i < p ==> bytes_lt(#[trigger] self.entries()[i].0, key),
            p < self.entries().len() ==> !bytes_lt(self.entries()[p].0, key),
        ensures
            (p < self.entries().len() && self.entries()[p].0 == key) <==> self@.contains_key(key),
            forall|i: int| p < i < self.entries().len() ==> bytes_lt(key, #[trigger] self.entries()[i].0),
            (p < self.entries().len() && self.entries()[p].0 != key) ==> bytes_lt(key, self.entries()[p].0),
    {
        let es = self.entries();
        if p < es.len() {
            lemma_bytes_lt_total(key, es[p].0);
            if es[p].0 != key {
                assert forall|i: int| p < i < es.len() implies bytes_lt(key, #[trigger] es[i].0) by {
                    assert(bytes_lt(es[p].0, es[i].0));
                    lemma_bytes_lt_transitive(key, es[p].0, es[i].0);
                }
            } else {
                assert forall|i: int| p < i < es.len() implies bytes_lt(key, #[trigger] es[i].0) by {
                    assert(bytes_lt(es[p].0, es[i].0));
                }
            }
        }
        if self@.contains_key(key) {
            let i = choose|i: int| 0 <= i < es.len() && es[i].0 == key;
            if i < p {
                lemma_bytes_lt_irreflexive(key);
            } else if i > p {
                lemma_bytes_lt_irreflexive(key);
            }
        }
    }
}

} // verus!
